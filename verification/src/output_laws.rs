use vstd::prelude::*;
use crate::model::{CompactOcelLog, TypeDef};
use crate::json::Json;
use crate::export_json::json_export;
use crate::state_query::{compares, CompareOp, QValue};
use crate::text::{seq_order, Order3, lemma_seq_order_equal, lemma_seq_order_flip};
use crate::patterns::InstanceView;
use crate::pattern_groups::{KeyView, GroupView, key_of, groups_of, add_to_groups, add_instance, empty_group, summary_ok, ranked_summaries, lemma_groups_distinct, keys_distinct};
use crate::counting::clamp_usize;
use crate::pattern_groups::text_items;

verus! {

/// The declaration of a type as the export writes it: its name, and each
/// attribute's name and type name, in order.
pub open spec fn declared(log: CompactOcelLog, t: TypeDef) -> Json {
    Json::Object(seq![
        ("name"@, Json::Str(log.text(t.name))),
        ("attributes"@, Json::Array(Seq::new(t.attributes@.len(), |i: int| Json::Object(seq![
            ("name"@, Json::Str(log.text(t.attributes@[i].name))),
            ("type"@, Json::Str(t.attributes@[i].attr_type.name())),
        ])))),
    ])
}

/// `j` begins with `eventTypes` listing the event types and `objectTypes`
/// listing the object types of `log`, in order, each as [`declared`].
pub open spec fn declares_types(log: CompactOcelLog, j: Json) -> bool {
    match j {
        Json::Object(ms) => ms.len() == 4 && ms[0].0 == "eventTypes"@ && ms[1].0 == "objectTypes"@ && match (ms[0].1, ms[1].1) {
            (Json::Array(ets), Json::Array(ots)) => {
                &&& ets.len() == log.event_types@.len()
                &&& ots.len() == log.object_types@.len()
                &&& forall|k: int| 0 <= k < ets.len() ==> #[trigger] ets[k] == declared(log, log.event_types@[k])
                &&& forall|k: int| 0 <= k < ots.len() ==> #[trigger] ots[k] == declared(log, log.object_types@[k])
            },
            _ => false,
        },
        _ => false,
    }
}

/// A JSON export declares exactly the log's types: `eventTypes` lists the
/// event types and `objectTypes` the object types, in the log's order, each
/// with its name and its attributes' names and types.
pub proof fn law_export_declares_the_log_types(log: CompactOcelLog)
    requires
        json_export(log) is Ok,
    ensures
        json_export(log) matches Ok(j) && declares_types(log, j),
{
    let j = json_export(log)->Ok_0;
    let ms = j->Object_0;
    let ets = ms[0].1->Array_0;
    let ots = ms[1].1->Array_0;
    assert forall|k: int| 0 <= k < ets.len() implies #[trigger] ets[k] == declared(log, log.event_types@[k]) by {
        let t = log.event_types@[k];
        assert(ets[k] == crate::export_json::type_json(log, t));
        let a = Seq::new(t.attributes@.len(), |i: int| crate::export_json::attr_def_json(log, t.attributes@[i]));
        let b = Seq::new(t.attributes@.len(), |i: int| Json::Object(seq![
            ("name"@, Json::Str(log.text(t.attributes@[i].name))),
            ("type"@, Json::Str(t.attributes@[i].attr_type.name())),
        ]));
        assert(a =~= b);
    }
    assert forall|k: int| 0 <= k < ots.len() implies #[trigger] ots[k] == declared(log, log.object_types@[k]) by {
        let t = log.object_types@[k];
        assert(ots[k] == crate::export_json::type_json(log, t));
        let a = Seq::new(t.attributes@.len(), |i: int| crate::export_json::attr_def_json(log, t.attributes@[i]));
        let b = Seq::new(t.attributes@.len(), |i: int| Json::Object(seq![
            ("name"@, Json::Str(log.text(t.attributes@[i].name))),
            ("type"@, Json::Str(t.attributes@[i].attr_type.name())),
        ]));
        assert(a =~= b);
    }
}

/// State-query comparisons of integers go by number: `<=` holds exactly
/// when the left is at most the right (so on equal numbers), `<` when it is
/// less, `>=` and `>` likewise.
pub proof fn law_integer_comparisons(i: int, j: int)
    ensures
        compares(QValue::Int(i), CompareOp::Le, QValue::Int(j)) == (i <= j),
        compares(QValue::Int(i), CompareOp::Lt, QValue::Int(j)) == (i < j),
        compares(QValue::Int(i), CompareOp::Ge, QValue::Int(j)) == (i >= j),
        compares(QValue::Int(i), CompareOp::Gt, QValue::Int(j)) == (i > j),
{
}

/// On texts, `<=` is `<` or equal and `>=` is `>` or equal; `=` and `!=`
/// compare the texts; `<` and `>` are each other's mirror.
pub proof fn law_text_comparisons(x: Seq<char>, y: Seq<char>)
    ensures
        compares(QValue::Text(x), CompareOp::Le, QValue::Text(y))
            == (compares(QValue::Text(x), CompareOp::Lt, QValue::Text(y)) || x == y),
        compares(QValue::Text(x), CompareOp::Ge, QValue::Text(y))
            == (compares(QValue::Text(x), CompareOp::Gt, QValue::Text(y)) || x == y),
        compares(QValue::Text(x), CompareOp::Eq, QValue::Text(y)) == (x == y),
        compares(QValue::Text(x), CompareOp::Ne, QValue::Text(y)) == (x != y),
        compares(QValue::Text(x), CompareOp::Lt, QValue::Text(y)) == compares(QValue::Text(y), CompareOp::Gt, QValue::Text(x)),
        !(compares(QValue::Text(x), CompareOp::Lt, QValue::Text(y)) && compares(QValue::Text(x), CompareOp::Gt, QValue::Text(y))),
{
    lemma_seq_order_equal(x, y);
    lemma_seq_order_flip(x, y);
}


/// How many of the instances have the key `k`.
pub open spec fn key_count(insts: Seq<InstanceView>, k: KeyView) -> nat
    decreases insts.len(),
{
    if insts.len() == 0 {
        0
    } else {
        key_count(insts.drop_last(), k) + if key_of(insts.last()) == k { 1nat } else { 0nat }
    }
}

/// The directly-follows steps of the instances with the key `k`: for each,
/// its sequence's length less one.
pub open spec fn key_steps(insts: Seq<InstanceView>, k: KeyView) -> nat
    decreases insts.len(),
{
    if insts.len() == 0 {
        0
    } else {
        let v = insts.last();
        key_steps(insts.drop_last(), k) + if key_of(v) == k && v.sequence.len() > 0 { (v.sequence.len() - 1) as nat } else { 0nat }
    }
}

proof fn lemma_group_counts(insts: Seq<InstanceView>)
    ensures
        forall|i: int| 0 <= i < groups_of(insts).len() ==> (#[trigger] groups_of(insts)[i]).support == key_count(insts, groups_of(insts)[i].key)
            && groups_of(insts)[i].mass == key_steps(insts, groups_of(insts)[i].key)
            && groups_of(insts)[i].support > 0,
        forall|k: KeyView| #[trigger] key_count(insts, k) > 0 ==> exists|i: int| 0 <= i < groups_of(insts).len() && groups_of(insts)[i].key == k,
    decreases insts.len(),
{
    if insts.len() > 0 {
        let pre = insts.drop_last();
        let v = insts.last();
        lemma_group_counts(pre);
        lemma_groups_distinct(pre);
        let gs = groups_of(pre);
        let k = key_of(v);
        let ng = groups_of(insts);
        assert(ng == add_to_groups(gs, v));
        if exists|i: int| 0 <= i < gs.len() && (#[trigger] gs[i]).key == k {
            let i = choose|i: int| 0 <= i < gs.len() && (#[trigger] gs[i]).key == k;
            assert(ng == gs.update(i, add_instance(gs[i], v)));
            assert forall|x: int| 0 <= x < ng.len() implies (#[trigger] ng[x]).support == key_count(insts, ng[x].key)
                && ng[x].mass == key_steps(insts, ng[x].key) && ng[x].support > 0 by {
                if x != i {
                    assert(gs[x].key != gs[i].key);
                }
            }
            assert forall|k2: KeyView| #[trigger] key_count(insts, k2) > 0 implies exists|x: int| 0 <= x < ng.len() && ng[x].key == k2 by {
                if key_count(pre, k2) > 0 {
                    let x = choose|x: int| 0 <= x < gs.len() && gs[x].key == k2;
                    assert(ng[x].key == k2);
                } else {
                    assert(k2 == k);
                    assert(ng[i].key == k2);
                }
            }
        } else {
            assert(ng == gs.push(add_instance(empty_group(k), v)));
            assert(key_count(pre, k) == 0) by {
                if key_count(pre, k) > 0 {
                    let x = choose|x: int| 0 <= x < gs.len() && gs[x].key == k;
                    assert(gs[x].key == k);
                }
            }
            assert(key_steps(pre, k) == 0) by {
                lemma_steps_zero(pre, k);
            }
            assert forall|x: int| 0 <= x < ng.len() implies (#[trigger] ng[x]).support == key_count(insts, ng[x].key)
                && ng[x].mass == key_steps(insts, ng[x].key) && ng[x].support > 0 by {
                if x < gs.len() {
                    assert(ng[x] == gs[x]);
                    assert(gs[x].key != k);
                }
            }
            assert forall|k2: KeyView| #[trigger] key_count(insts, k2) > 0 implies exists|x: int| 0 <= x < ng.len() && ng[x].key == k2 by {
                if key_count(pre, k2) > 0 {
                    let x = choose|x: int| 0 <= x < gs.len() && gs[x].key == k2;
                    assert(ng[x] == gs[x]);
                } else {
                    assert(ng[gs.len() as int].key == k2);
                }
            }
        }
    }
}

proof fn lemma_steps_zero(insts: Seq<InstanceView>, k: KeyView)
    requires
        key_count(insts, k) == 0,
    ensures
        key_steps(insts, k) == 0,
    decreases insts.len(),
{
    if insts.len() > 0 {
        lemma_steps_zero(insts.drop_last(), k);
    }
}

/// `j` is a pattern summary for the key `k` that reports `support` and
/// `mass` as its counts.
pub open spec fn reports_counts(j: Json, k: KeyView, support: nat, mass: nat) -> bool {
    match j {
        Json::Object(ms) => {
            &&& ms.len() == 14
            &&& ms[3] == ("leading_object_type"@, Json::Str(k.leading_object_type))
            &&& ms[7] == ("support"@, Json::Int(clamp_usize(support) as int))
            &&& ms[8] == ("mass"@, Json::Int(clamp_usize(mass) as int))
            &&& ms[9] == ("sequence"@, Json::Array(text_items(k.sequence)))
        },
        _ => false,
    }
}

/// Each pattern of a ranked summary reports, as `support`, how many
/// instances share its key, and, as `mass`, the directly-follows steps of
/// those instances (each instance's sequence length less one).
pub proof fn law_pattern_support_and_mass(insts: Seq<InstanceView>, js: Seq<Json>, idx: int)
    requires
        ranked_summaries(groups_of(insts), js),
        0 <= idx < js.len(),
    ensures
        exists|k: KeyView| #![trigger key_count(insts, k)]
            key_count(insts, k) > 0 && reports_counts(js[idx], k, key_count(insts, k), key_steps(insts, k)),
{
    broadcast use vstd::seq_lib::group_to_multiset_ensures;
    let gs = groups_of(insts);
    let order = choose|order: Seq<GroupView>|
        order.to_multiset() == gs.to_multiset() && crate::pattern_groups::ranked(order) && js.len() == order.len() && forall|i: int|
            0 <= i < order.len() ==> summary_ok(#[trigger] order[i], (i + 1) as nat, js[i]);
    let g = order[idx];
    assert(summary_ok(g, (idx + 1) as nat, js[idx]));
    assert(order.contains(g));
    assert(order.to_multiset().count(g) > 0);
    assert(gs.contains(g));
    let i = choose|i: int| 0 <= i < gs.len() && gs[i] == g;
    lemma_group_counts(insts);
    assert(gs[i].support == key_count(insts, g.key));
    assert(reports_counts(js[idx], g.key, key_count(insts, g.key), key_steps(insts, g.key)));
}

} // verus!

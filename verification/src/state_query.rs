use vstd::prelude::*;
use crate::error::OcelError;
use crate::text::{str_chars, string_from_chars, owned};
use crate::source::{i64_parse, parse_i64};
use crate::text::{str_eq, int_text, int_to_text, seq_order, text_order, Order3};
use crate::model::{CompactOcelLog, AttrValue, Attribute, Relationship, Event};
use crate::state_labels::StateAssignment;
use crate::votes::assignments_view;
use crate::pool::Symbol;
use crate::features::latest_upto;
use crate::log_ops::has_object_type;

verus! {

// The state query language:
//
//   STATE <attribute> FOR LEADING OBJECT TYPE '<type>' AS CASE
//     WHEN <condition> THEN <value>
//     ...
//     [ELSE <value>]
//   END
//
// Keywords are matched without regard to ASCII case. A condition compares
// operands with `=`, `!=`, `<>`, `<`, `<=`, `>`, `>=`, matches them with
// `LIKE` (`%` for any run of characters), tests them with `IS [NOT] NULL`,
// and composes with `AND`, `OR`, `NOT` and parentheses. An operand is a
// quoted string, an integer, another number as written, `TRUE`, `FALSE`,
// `NULL`, or a field: `event.id`, `event.type`, `event.time`,
// `event.<attribute>`, `object.id`, `object.type`, `object.<attribute>`.

/// A token of a query.
pub enum Tok {
    Word(String),
    Str(String),
    Sym(String),
}

pub enum TokV {
    Word(Seq<char>),
    Str(Seq<char>),
    Sym(Seq<char>),
}

pub open spec fn tok_view(t: Tok) -> TokV {
    match t {
        Tok::Word(s) => TokV::Word(s@),
        Tok::Str(s) => TokV::Str(s@),
        Tok::Sym(s) => TokV::Sym(s@),
    }
}

pub open spec fn toks_view(ts: Seq<Tok>) -> Seq<TokV> {
    ts.map_values(|t: Tok| tok_view(t))
}

pub open spec fn is_space(c: char) -> bool {
    c == ' ' || c == '\t' || c == '\n' || c == '\r'
}

pub open spec fn is_sym(c: char) -> bool {
    c == '=' || c == '!' || c == '<' || c == '>' || c == '(' || c == ')'
}

/// End of the word that starts at `i`.
pub open spec fn word_end(s: Seq<char>, i: int) -> int
    decreases s.len() - i,
{
    if i < 0 || i >= s.len() || is_space(s[i]) || is_sym(s[i]) || s[i] == '\'' {
        i
    } else {
        word_end(s, i + 1)
    }
}

/// Position of the first quote at or after `i`, or the length.
pub open spec fn quote_end(s: Seq<char>, i: int) -> int
    decreases s.len() - i,
{
    if i < 0 || i >= s.len() || s[i] == '\'' {
        i
    } else {
        quote_end(s, i + 1)
    }
}

/// Length of the operator symbol at `i`: two for `!=`, `<=`, `>=`, `<>`;
/// one for the other symbols; none for a lone `!`.
pub open spec fn sym_len(s: Seq<char>, i: int) -> int {
    let c = s[i];
    if i + 1 < s.len() && (c == '!' || c == '<' || c == '>') && s[i + 1] == '=' {
        2
    } else if i + 1 < s.len() && c == '<' && s[i + 1] == '>' {
        2
    } else if c == '!' {
        0
    } else {
        1
    }
}

pub open spec fn cons(t: TokV, rest: Option<Seq<TokV>>) -> Option<Seq<TokV>> {
    match rest {
        Some(r) => Some(seq![t] + r),
        None => None,
    }
}

/// The tokens of `s` from position `i`, or `None` where a quote is left
/// open or a `!` stands alone.
pub open spec fn tokens_from(s: Seq<char>, i: int) -> Option<Seq<TokV>>
    decreases s.len() - i,
{
    if i < 0 || i >= s.len() {
        Some(Seq::empty())
    } else if is_space(s[i]) {
        tokens_from(s, i + 1)
    } else if s[i] == '\'' {
        let j = quote_end(s, i + 1);
        if j >= s.len() || j <= i {
            None
        } else {
            cons(TokV::Str(s.subrange(i + 1, j)), tokens_from(s, j + 1))
        }
    } else if is_sym(s[i]) {
        let n = sym_len(s, i);
        if n <= 0 || i + n > s.len() {
            None
        } else {
            cons(TokV::Sym(s.subrange(i, i + n)), tokens_from(s, i + n))
        }
    } else {
        let j = word_end(s, i);
        if j <= i || j > s.len() {
            None
        } else {
            cons(TokV::Word(s.subrange(i, j)), tokens_from(s, j))
        }
    }
}

pub open spec fn join(acc: Seq<TokV>, rest: Option<Seq<TokV>>) -> Option<Seq<TokV>> {
    match rest {
        Some(r) => Some(acc + r),
        None => None,
    }
}

proof fn lemma_word_end(s: Seq<char>, i: int)
    requires
        0 <= i,
    ensures
        i <= word_end(s, i),
        word_end(s, i) <= s.len() || word_end(s, i) == i,
    decreases s.len() - i,
{
    if !(i >= s.len() || is_space(s[i]) || is_sym(s[i]) || s[i] == '\'') {
        lemma_word_end(s, i + 1);
    }
}

proof fn lemma_quote_end(s: Seq<char>, i: int)
    requires
        0 <= i,
    ensures
        i <= quote_end(s, i),
        quote_end(s, i) <= s.len() || quote_end(s, i) == i,
    decreases s.len() - i,
{
    if !(i >= s.len() || s[i] == '\'') {
        lemma_quote_end(s, i + 1);
    }
}

fn is_space_char(c: char) -> (r: bool)
    ensures
        r == is_space(c),
{
    c == ' ' || c == '\t' || c == '\n' || c == '\r'
}

fn is_sym_char(c: char) -> (r: bool)
    ensures
        r == is_sym(c),
{
    c == '=' || c == '!' || c == '<' || c == '>' || c == '(' || c == ')'
}

fn text_of(cs: &Vec<char>, i: usize, j: usize) -> (r: String)
    requires
        i <= j <= cs@.len(),
    ensures
        r@ == cs@.subrange(i as int, j as int),
{
    let mut part: Vec<char> = Vec::new();
    let mut k: usize = i;
    while k < j
        invariant
            i <= k <= j <= cs@.len(),
            part@ == cs@.subrange(i as int, k as int),
        decreases j - k,
    {
        part.push(cs[k]);
        assert(cs@.subrange(i as int, k + 1) =~= cs@.subrange(i as int, k as int).push(cs@[k as int]));
        k = k + 1;
    }
    string_from_chars(&part)
}

/// The tokens of a query text.
pub fn tokenize(text: &str) -> (r: Option<Vec<Tok>>)
    ensures
        match r {
            Some(v) => tokens_from(text@, 0) == Some(toks_view(v@)),
            None => tokens_from(text@, 0) is None,
        },
{
    let cs = str_chars(text);
    let ghost s = text@;
    let mut out: Vec<Tok> = Vec::new();
    let mut i: usize = 0;
    assert(toks_view(out@) =~= Seq::<TokV>::empty());
    while i < cs.len()
        invariant
            s == text@,
            cs@ == s,
            i <= cs@.len(),
            tokens_from(s, 0) == join(toks_view(out@), tokens_from(s, i as int)),
        decreases cs.len() - i,
    {
        let c = cs[i];
        let ghost before = out@;
        if is_space_char(c) {
            assert(tokens_from(s, i as int) == tokens_from(s, i + 1));
            i = i + 1;
        } else if c == '\'' {
            let mut j: usize = i + 1;
            proof { lemma_quote_end(s, i + 1); }
            while j < cs.len() && cs[j] != '\''
                invariant
                    cs@ == s,
                    i < j <= cs@.len(),
                    quote_end(s, j as int) == quote_end(s, i + 1),
                decreases cs.len() - j,
            {
                j = j + 1;
            }
            assert(quote_end(s, j as int) == j);
            if j >= cs.len() {
                assert(tokens_from(s, i as int) is None);
                return None;
            }
            out.push(Tok::Str(text_of(&cs, i + 1, j)));
            proof {
                assert(toks_view(out@) =~= toks_view(before) + seq![TokV::Str(s.subrange(i + 1, j as int))]);
                assert(toks_view(out@) + tokens_from(s, j + 1)->0 =~= toks_view(before) + (seq![TokV::Str(s.subrange(i + 1, j as int))] + tokens_from(s, j + 1)->0));
            }
            i = j + 1;
        } else if is_sym_char(c) {
            let two = i + 1 < cs.len() && (((c == '!' || c == '<' || c == '>') && cs[i + 1] == '=') || (c == '<' && cs[i + 1] == '>'));
            if !two && c == '!' {
                assert(tokens_from(s, i as int) is None);
                return None;
            }
            let n: usize = if two { 2 } else { 1 };
            assert(n == sym_len(s, i as int));
            out.push(Tok::Sym(text_of(&cs, i, i + n)));
            proof {
                assert(toks_view(out@) =~= toks_view(before) + seq![TokV::Sym(s.subrange(i as int, i + n))]);
                assert(toks_view(out@) + tokens_from(s, i + n)->0 =~= toks_view(before) + (seq![TokV::Sym(s.subrange(i as int, i + n))] + tokens_from(s, i + n)->0));
            }
            i = i + n;
        } else {
            let mut j: usize = i + 1;
            proof { lemma_word_end(s, i + 1); }
            while j < cs.len() && !is_space_char(cs[j]) && !is_sym_char(cs[j]) && cs[j] != '\''
                invariant
                    cs@ == s,
                    i < j <= cs@.len(),
                    word_end(s, j as int) == word_end(s, i + 1),
                decreases cs.len() - j,
            {
                j = j + 1;
            }
            assert(word_end(s, j as int) == j);
            assert(word_end(s, i as int) == j);
            out.push(Tok::Word(text_of(&cs, i, j)));
            proof {
                assert(toks_view(out@) =~= toks_view(before) + seq![TokV::Word(s.subrange(i as int, j as int))]);
                assert(toks_view(out@) + tokens_from(s, j as int)->0 =~= toks_view(before) + (seq![TokV::Word(s.subrange(i as int, j as int))] + tokens_from(s, j as int)->0));
            }
            i = j;
        }
    }
    assert(tokens_from(s, i as int) == Some(Seq::<TokV>::empty()));
    assert(toks_view(out@) + Seq::<TokV>::empty() =~= toks_view(out@));
    Some(out)
}


/// Comparison operators.
#[derive(Clone, Copy, PartialEq, Eq, Structural, Debug)]
pub enum CompareOp {
    Eq,
    Ne,
    Lt,
    Le,
    Gt,
    Ge,
}

/// A field of the event or of a related object.
pub enum Field {
    EventId,
    EventType,
    EventTime,
    EventAttr(String),
    ObjectId,
    ObjectType,
    ObjectAttr(String),
}

pub enum FieldV {
    EventId,
    EventType,
    EventTime,
    EventAttr(Seq<char>),
    ObjectId,
    ObjectType,
    ObjectAttr(Seq<char>),
}

/// An operand: a field or a literal.
pub enum Operand {
    Field(Field),
    Text(String),
    Int(i64),
    Bool(bool),
    Null,
}

pub enum OperandV {
    Field(FieldV),
    Text(Seq<char>),
    Int(i64),
    Bool(bool),
    Null,
}

/// A condition.
pub enum Cond {
    Compare(Operand, CompareOp, Operand),
    Like(Operand, Operand),
    /// The operand is null, or with `true` not null.
    IsNull(Operand, bool),
    Not(Box<Cond>),
    And(Box<Cond>, Box<Cond>),
    Or(Box<Cond>, Box<Cond>),
}

pub enum CondV {
    Compare(OperandV, CompareOp, OperandV),
    Like(OperandV, OperandV),
    IsNull(OperandV, bool),
    Not(Box<CondV>),
    And(Box<CondV>, Box<CondV>),
    Or(Box<CondV>, Box<CondV>),
}

/// `WHEN condition THEN value`.
pub struct Branch {
    pub condition: Cond,
    pub value: Operand,
}

/// A parsed state query.
pub struct StateQuery {
    pub attribute_name: String,
    pub leading_object_type: String,
    pub branches: Vec<Branch>,
    pub else_value: Option<Operand>,
}

/// Model of a state query.
pub struct QueryV {
    pub attribute: Seq<char>,
    pub leading: Seq<char>,
    pub branches: Seq<(CondV, OperandV)>,
    pub else_value: Option<OperandV>,
}

pub open spec fn field_view(f: Field) -> FieldV {
    match f {
        Field::EventId => FieldV::EventId,
        Field::EventType => FieldV::EventType,
        Field::EventTime => FieldV::EventTime,
        Field::EventAttr(n) => FieldV::EventAttr(n@),
        Field::ObjectId => FieldV::ObjectId,
        Field::ObjectType => FieldV::ObjectType,
        Field::ObjectAttr(n) => FieldV::ObjectAttr(n@),
    }
}

pub open spec fn operand_view(x: Operand) -> OperandV {
    match x {
        Operand::Field(f) => OperandV::Field(field_view(f)),
        Operand::Text(t) => OperandV::Text(t@),
        Operand::Int(i) => OperandV::Int(i),
        Operand::Bool(b) => OperandV::Bool(b),
        Operand::Null => OperandV::Null,
    }
}

pub open spec fn cond_view(c: Cond) -> CondV
    decreases c,
{
    match c {
        Cond::Compare(a, op, b) => CondV::Compare(operand_view(a), op, operand_view(b)),
        Cond::Like(a, b) => CondV::Like(operand_view(a), operand_view(b)),
        Cond::IsNull(a, n) => CondV::IsNull(operand_view(a), n),
        Cond::Not(x) => CondV::Not(Box::new(cond_view(*x))),
        Cond::And(x, y) => CondV::And(Box::new(cond_view(*x)), Box::new(cond_view(*y))),
        Cond::Or(x, y) => CondV::Or(Box::new(cond_view(*x)), Box::new(cond_view(*y))),
    }
}

pub open spec fn branch_view(b: Branch) -> (CondV, OperandV) {
    (cond_view(b.condition), operand_view(b.value))
}

impl StateQuery {
    pub open spec fn model(&self) -> QueryV {
        QueryV {
            attribute: self.attribute_name@,
            leading: self.leading_object_type@,
            branches: self.branches@.map_values(|b: Branch| branch_view(b)),
            else_value: match self.else_value {
                Some(v) => Some(operand_view(v)),
                None => None,
            },
        }
    }
}

/// Two characters are equal up to ASCII case.
pub open spec fn same_ci(a: char, b: char) -> bool {
    ||| a == b
    ||| ('A' <= a <= 'Z' && a as u32 + 32 == b as u32)
    ||| ('A' <= b <= 'Z' && b as u32 + 32 == a as u32)
}

/// Two texts are equal up to ASCII case.
pub open spec fn ci_eq(a: Seq<char>, b: Seq<char>) -> bool {
    a.len() == b.len() && forall|i: int| 0 <= i < a.len() ==> same_ci(#[trigger] a[i], b[i])
}

/// The token is the keyword `k`.
pub open spec fn is_kw(t: TokV, k: Seq<char>) -> bool {
    match t {
        TokV::Word(w) => ci_eq(w, k),
        _ => false,
    }
}

pub open spec fn is_sym_tok(t: TokV, k: Seq<char>) -> bool {
    match t {
        TokV::Sym(w) => w == k,
        _ => false,
    }
}

pub open spec fn field_of(w: Seq<char>) -> Option<FieldV> {
    if w.len() >= 6 && ci_eq(w.take(6), "event."@) {
        let r = w.skip(6);
        Some(if ci_eq(r, "id"@) {
            FieldV::EventId
        } else if ci_eq(r, "type"@) {
            FieldV::EventType
        } else if ci_eq(r, "time"@) {
            FieldV::EventTime
        } else {
            FieldV::EventAttr(r)
        })
    } else if w.len() >= 7 && ci_eq(w.take(7), "object."@) {
        let r = w.skip(7);
        Some(if ci_eq(r, "id"@) {
            FieldV::ObjectId
        } else if ci_eq(r, "type"@) {
            FieldV::ObjectType
        } else {
            FieldV::ObjectAttr(r)
        })
    } else {
        None
    }
}

/// A word that reads as a number that is no `i64` stays as written.
pub open spec fn numeric_start(c: char) -> bool {
    ('0' <= c <= '9') || c == '-' || c == '.' || c == '+'
}

pub open spec fn operand_of(t: TokV) -> Option<OperandV> {
    match t {
        TokV::Str(s) => Some(OperandV::Text(s)),
        TokV::Sym(_) => None,
        TokV::Word(w) => match i64_parse(w) {
            Ok(n) => Some(OperandV::Int(n)),
            Err(_) => if ci_eq(w, "TRUE"@) {
                Some(OperandV::Bool(true))
            } else if ci_eq(w, "FALSE"@) {
                Some(OperandV::Bool(false))
            } else if ci_eq(w, "NULL"@) {
                Some(OperandV::Null)
            } else if field_of(w) is Some {
                Some(OperandV::Field(field_of(w)->0))
            } else if w.len() > 0 && numeric_start(w[0]) {
                Some(OperandV::Text(w))
            } else {
                None
            },
        },
    }
}

pub open spec fn compare_op_of(t: TokV) -> Option<CompareOp> {
    if is_sym_tok(t, "="@) {
        Some(CompareOp::Eq)
    } else if is_sym_tok(t, "!="@) || is_sym_tok(t, "<>"@) {
        Some(CompareOp::Ne)
    } else if is_sym_tok(t, "<"@) {
        Some(CompareOp::Lt)
    } else if is_sym_tok(t, "<="@) {
        Some(CompareOp::Le)
    } else if is_sym_tok(t, ">"@) {
        Some(CompareOp::Gt)
    } else if is_sym_tok(t, ">="@) {
        Some(CompareOp::Ge)
    } else {
        None
    }
}

/// A condition from token `p`: `OR` binds loosest, then `AND`, then `NOT`.
pub open spec fn p_cond(ts: Seq<TokV>, p: int) -> Option<(CondV, int)>
    decreases ts.len() - p, 6int,
{
    p_or(ts, p)
}

pub open spec fn p_or(ts: Seq<TokV>, p: int) -> Option<(CondV, int)>
    decreases ts.len() - p, 5int,
{
    if p < 0 || p >= ts.len() {
        None
    } else {
        match p_and(ts, p) {
            Some((a, p1)) => if p1 <= p || p1 > ts.len() { None } else { p_or_rest(ts, a, p1) },
            None => None,
        }
    }
}

pub open spec fn p_or_rest(ts: Seq<TokV>, lhs: CondV, p: int) -> Option<(CondV, int)>
    decreases ts.len() - p, 0int,
{
    if 0 <= p < ts.len() && is_kw(ts[p], "OR"@) {
        match p_and(ts, p + 1) {
            Some((b, p1)) => if p1 <= p || p1 > ts.len() {
                None
            } else {
                p_or_rest(ts, CondV::Or(Box::new(lhs), Box::new(b)), p1)
            },
            None => None,
        }
    } else {
        Some((lhs, p))
    }
}

pub open spec fn p_and(ts: Seq<TokV>, p: int) -> Option<(CondV, int)>
    decreases ts.len() - p, 4int,
{
    if p < 0 || p >= ts.len() {
        None
    } else {
        match p_not(ts, p) {
            Some((a, p1)) => if p1 <= p || p1 > ts.len() { None } else { p_and_rest(ts, a, p1) },
            None => None,
        }
    }
}

pub open spec fn p_and_rest(ts: Seq<TokV>, lhs: CondV, p: int) -> Option<(CondV, int)>
    decreases ts.len() - p, 0int,
{
    if 0 <= p < ts.len() && is_kw(ts[p], "AND"@) {
        match p_not(ts, p + 1) {
            Some((b, p1)) => if p1 <= p || p1 > ts.len() {
                None
            } else {
                p_and_rest(ts, CondV::And(Box::new(lhs), Box::new(b)), p1)
            },
            None => None,
        }
    } else {
        Some((lhs, p))
    }
}

pub open spec fn p_not(ts: Seq<TokV>, p: int) -> Option<(CondV, int)>
    decreases ts.len() - p, 3int,
{
    if p < 0 || p >= ts.len() {
        None
    } else if is_kw(ts[p], "NOT"@) {
        match p_not(ts, p + 1) {
            Some((c, p1)) => Some((CondV::Not(Box::new(c)), p1)),
            None => None,
        }
    } else {
        p_prim(ts, p)
    }
}

pub open spec fn p_prim(ts: Seq<TokV>, p: int) -> Option<(CondV, int)>
    decreases ts.len() - p, 2int,
{
    if p < 0 || p >= ts.len() {
        None
    } else if is_sym_tok(ts[p], "("@) {
        match p_cond(ts, p + 1) {
            Some((c, p1)) => if p1 <= p || p1 >= ts.len() || !is_sym_tok(ts[p1], ")"@) {
                None
            } else {
                Some((c, p1 + 1))
            },
            None => None,
        }
    } else {
        match operand_of(ts[p]) {
            None => None,
            Some(a) => {
                let q = p + 1;
                if q < ts.len() && is_kw(ts[q], "IS"@) {
                    if q + 2 < ts.len() && is_kw(ts[q + 1], "NOT"@) && is_kw(ts[q + 2], "NULL"@) {
                        Some((CondV::IsNull(a, true), q + 3))
                    } else if q + 1 < ts.len() && is_kw(ts[q + 1], "NULL"@) {
                        Some((CondV::IsNull(a, false), q + 2))
                    } else {
                        None
                    }
                } else if q + 1 < ts.len() && is_kw(ts[q], "LIKE"@) {
                    match operand_of(ts[q + 1]) {
                        Some(b) => Some((CondV::Like(a, b), q + 2)),
                        None => None,
                    }
                } else if q + 1 < ts.len() && compare_op_of(ts[q]) is Some {
                    match operand_of(ts[q + 1]) {
                        Some(b) => Some((CondV::Compare(a, compare_op_of(ts[q])->0, b), q + 2)),
                        None => None,
                    }
                } else {
                    None
                }
            },
        }
    }
}

/// `WHEN ... THEN ...` branches from token `p`.
pub open spec fn p_branches(ts: Seq<TokV>, p: int) -> Option<(Seq<(CondV, OperandV)>, int)>
    decreases ts.len() - p,
{
    if 0 <= p < ts.len() && is_kw(ts[p], "WHEN"@) {
        match p_cond(ts, p + 1) {
            Some((c, p1)) => if p1 <= p || p1 + 1 >= ts.len() || !is_kw(ts[p1], "THEN"@) {
                None
            } else {
                match operand_of(ts[p1 + 1]) {
                    None => None,
                    Some(v) => match p_branches(ts, p1 + 2) {
                        Some((bs, q)) => Some((seq![(c, v)] + bs, q)),
                        None => None,
                    },
                }
            },
            None => None,
        }
    } else {
        Some((Seq::empty(), p))
    }
}

pub open spec fn header_ok(ts: Seq<TokV>) -> bool {
    &&& ts.len() >= 9
    &&& is_kw(ts[0], "STATE"@)
    &&& ts[1] is Word
    &&& is_kw(ts[2], "FOR"@)
    &&& is_kw(ts[3], "LEADING"@)
    &&& is_kw(ts[4], "OBJECT"@)
    &&& is_kw(ts[5], "TYPE"@)
    &&& ts[6] is Str
    &&& is_kw(ts[7], "AS"@)
    &&& is_kw(ts[8], "CASE"@)
}

pub open spec fn p_query(ts: Seq<TokV>) -> Option<QueryV> {
    if !header_ok(ts) {
        None
    } else {
        let attribute = ts[1]->Word_0;
        let leading = ts[6]->Str_0;
        match p_branches(ts, 9) {
            None => None,
            Some((bs, p)) => if p + 3 == ts.len() && is_kw(ts[p], "ELSE"@) && is_kw(ts[p + 2], "END"@) {
                match operand_of(ts[p + 1]) {
                    Some(v) => Some(QueryV { attribute, leading, branches: bs, else_value: Some(v) }),
                    None => None,
                }
            } else if p + 1 == ts.len() && is_kw(ts[p], "END"@) {
                Some(QueryV { attribute, leading, branches: bs, else_value: None })
            } else {
                None
            },
        }
    }
}

/// The query a text reads as, if any.
pub open spec fn state_query_of(text: Seq<char>) -> Option<QueryV> {
    match tokens_from(text, 0) {
        Some(ts) => p_query(ts),
        None => None,
    }
}


pub open spec fn cond_res(r: Option<(Cond, usize)>) -> Option<(CondV, int)> {
    match r {
        Some((c, q)) => Some((cond_view(c), q as int)),
        None => None,
    }
}

fn same_ci_char(a: char, b: char) -> (r: bool)
    ensures
        r == same_ci(a, b),
{
    a == b || ('A' <= a && a <= 'Z' && (a as u32) + 32 == (b as u32)) || ('A' <= b && b <= 'Z' && (b as u32) + 32 == (a as u32))
}

fn ci_eq_chars(a: &Vec<char>, b: &Vec<char>) -> (r: bool)
    ensures
        r == ci_eq(a@, b@),
{
    if a.len() != b.len() {
        return false;
    }
    let mut i: usize = 0;
    while i < a.len()
        invariant
            a@.len() == b@.len(),
            i <= a@.len(),
            forall|k: int| 0 <= k < i ==> same_ci(#[trigger] a@[k], b@[k]),
        decreases a.len() - i,
    {
        if !same_ci_char(a[i], b[i]) {
            return false;
        }
        i = i + 1;
    }
    true
}

fn ci_eq_str(a: &str, b: &str) -> (r: bool)
    ensures
        r == ci_eq(a@, b@),
{
    ci_eq_chars(&str_chars(a), &str_chars(b))
}

fn kw(t: &Tok, k: &str) -> (r: bool)
    ensures
        r == is_kw(tok_view(*t), k@),
{
    match t {
        Tok::Word(w) => ci_eq_str(w.as_str(), k),
        _ => false,
    }
}

fn sym_is(t: &Tok, k: &str) -> (r: bool)
    ensures
        r == is_sym_tok(tok_view(*t), k@),
{
    match t {
        Tok::Sym(w) => crate::text::str_eq(w.as_str(), k),
        _ => false,
    }
}

fn field_from(w: &str) -> (r: Option<Field>)
    ensures
        match r {
            Some(f) => field_of(w@) == Some(field_view(f)),
            None => field_of(w@) is None,
        },
{
    let cs = str_chars(w);
    if cs.len() >= 6 && ci_eq_str(text_of(&cs, 0, 6).as_str(), "event.") {
        let rest = text_of(&cs, 6, cs.len());
        assert(rest@ == w@.skip(6));
        let f = if ci_eq_str(rest.as_str(), "id") {
            Field::EventId
        } else if ci_eq_str(rest.as_str(), "type") {
            Field::EventType
        } else if ci_eq_str(rest.as_str(), "time") {
            Field::EventTime
        } else {
            Field::EventAttr(rest)
        };
        Some(f)
    } else if cs.len() >= 7 && ci_eq_str(text_of(&cs, 0, 7).as_str(), "object.") {
        let rest = text_of(&cs, 7, cs.len());
        assert(rest@ == w@.skip(7));
        let f = if ci_eq_str(rest.as_str(), "id") {
            Field::ObjectId
        } else if ci_eq_str(rest.as_str(), "type") {
            Field::ObjectType
        } else {
            Field::ObjectAttr(rest)
        };
        Some(f)
    } else {
        None
    }
}

fn operand_from(t: &Tok) -> (r: Option<Operand>)
    ensures
        match r {
            Some(x) => operand_of(tok_view(*t)) == Some(operand_view(x)),
            None => operand_of(tok_view(*t)) is None,
        },
{
    match t {
        Tok::Str(s) => Some(Operand::Text(owned(s.as_str()))),
        Tok::Sym(_) => None,
        Tok::Word(w) => match parse_i64(w.as_str()) {
            Ok(n) => Some(Operand::Int(n)),
            Err(_) => {
                if ci_eq_str(w.as_str(), "TRUE") {
                    Some(Operand::Bool(true))
                } else if ci_eq_str(w.as_str(), "FALSE") {
                    Some(Operand::Bool(false))
                } else if ci_eq_str(w.as_str(), "NULL") {
                    Some(Operand::Null)
                } else {
                    match field_from(w.as_str()) {
                        Some(f) => Some(Operand::Field(f)),
                        None => {
                            let cs = str_chars(w.as_str());
                            if cs.len() > 0 && (('0' <= cs[0] && cs[0] <= '9') || cs[0] == '-' || cs[0] == '.' || cs[0] == '+') {
                                Some(Operand::Text(owned(w.as_str())))
                            } else {
                                None
                            }
                        },
                    }
                }
            },
        },
    }
}

fn compare_op_from(t: &Tok) -> (r: Option<CompareOp>)
    ensures
        r == compare_op_of(tok_view(*t)),
{
    if sym_is(t, "=") {
        Some(CompareOp::Eq)
    } else if sym_is(t, "!=") || sym_is(t, "<>") {
        Some(CompareOp::Ne)
    } else if sym_is(t, "<") {
        Some(CompareOp::Lt)
    } else if sym_is(t, "<=") {
        Some(CompareOp::Le)
    } else if sym_is(t, ">") {
        Some(CompareOp::Gt)
    } else if sym_is(t, ">=") {
        Some(CompareOp::Ge)
    } else {
        None
    }
}

fn parse_cond(ts: &Vec<Tok>, p: usize) -> (r: Option<(Cond, usize)>)
    ensures
        cond_res(r) == p_cond(toks_view(ts@), p as int),
    decreases ts@.len() - p, 6int,
{
    parse_or(ts, p)
}

fn parse_or(ts: &Vec<Tok>, p: usize) -> (r: Option<(Cond, usize)>)
    ensures
        cond_res(r) == p_or(toks_view(ts@), p as int),
    decreases ts@.len() - p, 5int,
{
    if p >= ts.len() {
        return None;
    }
    match parse_and(ts, p) {
        Some((a, p1)) => if p1 <= p || p1 > ts.len() { None } else { parse_or_rest(ts, a, p1) },
        None => None,
    }
}

fn parse_or_rest(ts: &Vec<Tok>, lhs: Cond, p: usize) -> (r: Option<(Cond, usize)>)
    ensures
        cond_res(r) == p_or_rest(toks_view(ts@), cond_view(lhs), p as int),
    decreases ts@.len() - p, 0int,
{
    if p < ts.len() && kw(&ts[p], "OR") {
        match parse_and(ts, p + 1) {
            Some((b, p1)) => if p1 <= p || p1 > ts.len() {
                None
            } else {
                let c = Cond::Or(Box::new(lhs), Box::new(b));
                parse_or_rest(ts, c, p1)
            },
            None => None,
        }
    } else {
        Some((lhs, p))
    }
}

fn parse_and(ts: &Vec<Tok>, p: usize) -> (r: Option<(Cond, usize)>)
    ensures
        cond_res(r) == p_and(toks_view(ts@), p as int),
    decreases ts@.len() - p, 4int,
{
    if p >= ts.len() {
        return None;
    }
    match parse_not(ts, p) {
        Some((a, p1)) => if p1 <= p || p1 > ts.len() { None } else { parse_and_rest(ts, a, p1) },
        None => None,
    }
}

fn parse_and_rest(ts: &Vec<Tok>, lhs: Cond, p: usize) -> (r: Option<(Cond, usize)>)
    ensures
        cond_res(r) == p_and_rest(toks_view(ts@), cond_view(lhs), p as int),
    decreases ts@.len() - p, 0int,
{
    if p < ts.len() && kw(&ts[p], "AND") {
        match parse_not(ts, p + 1) {
            Some((b, p1)) => if p1 <= p || p1 > ts.len() {
                None
            } else {
                let c = Cond::And(Box::new(lhs), Box::new(b));
                parse_and_rest(ts, c, p1)
            },
            None => None,
        }
    } else {
        Some((lhs, p))
    }
}

fn parse_not(ts: &Vec<Tok>, p: usize) -> (r: Option<(Cond, usize)>)
    ensures
        cond_res(r) == p_not(toks_view(ts@), p as int),
    decreases ts@.len() - p, 3int,
{
    if p >= ts.len() {
        None
    } else if kw(&ts[p], "NOT") {
        match parse_not(ts, p + 1) {
            Some((c, p1)) => Some((Cond::Not(Box::new(c)), p1)),
            None => None,
        }
    } else {
        parse_prim(ts, p)
    }
}

fn parse_prim(ts: &Vec<Tok>, p: usize) -> (r: Option<(Cond, usize)>)
    ensures
        cond_res(r) == p_prim(toks_view(ts@), p as int),
    decreases ts@.len() - p, 2int,
{
    let ghost tv = toks_view(ts@);
    if p >= ts.len() {
        return None;
    }
    if sym_is(&ts[p], "(") {
        match parse_cond(ts, p + 1) {
            Some((c, p1)) => if p1 <= p || p1 >= ts.len() || !sym_is(&ts[p1], ")") {
                None
            } else {
                Some((c, p1 + 1))
            },
            None => None,
        }
    } else {
        match operand_from(&ts[p]) {
            None => None,
            Some(a) => {
                let q = p + 1;
                if q < ts.len() && kw(&ts[q], "IS") {
                    if ts.len() - q > 2 && kw(&ts[q + 1], "NOT") && kw(&ts[q + 2], "NULL") {
                        Some((Cond::IsNull(a, true), q + 3))
                    } else if ts.len() - q > 1 && kw(&ts[q + 1], "NULL") {
                        Some((Cond::IsNull(a, false), q + 2))
                    } else {
                        None
                    }
                } else if ts.len() - q > 1 && kw(&ts[q], "LIKE") {
                    match operand_from(&ts[q + 1]) {
                        Some(b) => Some((Cond::Like(a, b), q + 2)),
                        None => None,
                    }
                } else if ts.len() - q > 1 && compare_op_from(&ts[q]).is_some() {
                    let op = match compare_op_from(&ts[q]) {
                        Some(o) => o,
                        None => CompareOp::Eq,
                    };
                    match operand_from(&ts[q + 1]) {
                        Some(b) => Some((Cond::Compare(a, op, b), q + 2)),
                        None => None,
                    }
                } else {
                    None
                }
            },
        }
    }
}

pub open spec fn branches_res(r: Option<(Vec<Branch>, usize)>) -> Option<(Seq<(CondV, OperandV)>, int)> {
    match r {
        Some((bs, q)) => Some((bs@.map_values(|b: Branch| branch_view(b)), q as int)),
        None => None,
    }
}

fn parse_branches(ts: &Vec<Tok>, p: usize) -> (r: Option<(Vec<Branch>, usize)>)
    ensures
        branches_res(r) == p_branches(toks_view(ts@), p as int),
    decreases ts@.len() - p,
{
    if p < ts.len() && kw(&ts[p], "WHEN") {
        match parse_cond(ts, p + 1) {
            Some((c, p1)) => if p1 <= p || p1 >= ts.len() - 1 || !kw(&ts[p1], "THEN") {
                None
            } else {
                match operand_from(&ts[p1 + 1]) {
                    None => None,
                    Some(v) => match parse_branches(ts, p1 + 2) {
                        Some((bs, q)) => {
                            let ghost rest = bs@;
                            let mut out = bs;
                            let b = Branch { condition: c, value: v };
                            let ghost bv = branch_view(b);
                            out.insert(0, b);
                            assert(out@.map_values(|b: Branch| branch_view(b)) =~= seq![bv] + rest.map_values(|b: Branch| branch_view(b)));
                            Some((out, q))
                        },
                        None => None,
                    },
                }
            },
            None => None,
        }
    } else {
        let out: Vec<Branch> = Vec::new();
        assert(out@.map_values(|b: Branch| branch_view(b)) =~= Seq::<(CondV, OperandV)>::empty());
        Some((out, p))
    }
}

/// Parses a state query.
pub fn parse_state_query(text: &str) -> (r: Result<StateQuery, OcelError>)
    ensures
        r is Ok <==> state_query_of(text@) is Some,
        match r {
            Ok(q) => q.model() == state_query_of(text@)->0,
            Err(e) => e.message@ == "could not parse state query"@,
        },
{
    proof { reveal_strlit("could not parse state query"); }
    let ts = match tokenize(text) {
        Some(ts) => ts,
        None => return Err(OcelError::new(owned("could not parse state query"))),
    };
    let ghost tv = toks_view(ts@);
    let head = ts.len() >= 9 && kw(&ts[0], "STATE") && kw(&ts[2], "FOR") && kw(&ts[3], "LEADING")
        && kw(&ts[4], "OBJECT") && kw(&ts[5], "TYPE") && kw(&ts[7], "AS") && kw(&ts[8], "CASE");
    if !head {
        return Err(OcelError::new(owned("could not parse state query")));
    }
    let attribute = match &ts[1] {
        Tok::Word(w) => owned(w.as_str()),
        _ => return Err(OcelError::new(owned("could not parse state query"))),
    };
    let leading = match &ts[6] {
        Tok::Str(w) => owned(w.as_str()),
        _ => return Err(OcelError::new(owned("could not parse state query"))),
    };
    assert(header_ok(tv));
    let (branches, p) = match parse_branches(&ts, 9) {
        Some(x) => x,
        None => return Err(OcelError::new(owned("could not parse state query"))),
    };
    if p < ts.len() && ts.len() - p == 3 && kw(&ts[p], "ELSE") && kw(&ts[p + 2], "END") {
        match operand_from(&ts[p + 1]) {
            Some(v) => Ok(StateQuery { attribute_name: attribute, leading_object_type: leading, branches, else_value: Some(v) }),
            None => Err(OcelError::new(owned("could not parse state query"))),
        }
    } else if p < ts.len() && ts.len() - p == 1 && kw(&ts[p], "END") {
        Ok(StateQuery { attribute_name: attribute, leading_object_type: leading, branches, else_value: None })
    } else {
        Err(OcelError::new(owned("could not parse state query")))
    }
}


/// A value that a field or literal takes on an event.
pub enum QValue {
    Null,
    Text(Seq<char>),
    Int(int),
    Bool(bool),
}

pub enum QVal {
    Null,
    Text(String),
    Int(i64),
    Bool(bool),
}

pub open spec fn qval_view(v: QVal) -> QValue {
    match v {
        QVal::Null => QValue::Null,
        QVal::Text(s) => QValue::Text(s@),
        QVal::Int(i) => QValue::Int(i as int),
        QVal::Bool(b) => QValue::Bool(b),
    }
}

/// Value of an attribute: texts and float texts as text, integers and
/// times (in milliseconds) as integers, booleans as booleans.
pub open spec fn attr_qvalue(log: CompactOcelLog, v: AttrValue) -> QValue {
    match v {
        AttrValue::String(s) => QValue::Text(log.text(s)),
        AttrValue::Float(s) => QValue::Text(log.text(s)),
        AttrValue::Integer(i) => QValue::Int(i as int),
        AttrValue::Time(ms) => QValue::Int(ms as int),
        AttrValue::Boolean(b) => QValue::Bool(b),
    }
}

/// The first attribute named `n` from position `k` on.
pub open spec fn first_attr(log: CompactOcelLog, attrs: Seq<Attribute>, n: Seq<char>, k: int) -> QValue
    decreases attrs.len() - k,
{
    if k < 0 || k >= attrs.len() {
        QValue::Null
    } else if log.text(attrs[k].name) == n {
        attr_qvalue(log, attrs[k].value)
    } else {
        first_attr(log, attrs, n, k + 1)
    }
}

/// The latest value of object attribute `n` at or before time `t`.
pub open spec fn object_attr(log: CompactOcelLog, o: int, t: i64, n: Seq<char>) -> QValue {
    let attrs = log.objects@[o].attributes@;
    match latest_upto(log, attrs, t, n, attrs.len() as int) {
        Some(p) => attr_qvalue(log, p.1),
        None => QValue::Null,
    }
}

/// Value of a field on event `e`, with the related object `o` if any.
pub open spec fn field_value(log: CompactOcelLog, e: int, o: Option<int>, f: FieldV) -> QValue {
    let ev = log.events@[e];
    match f {
        FieldV::EventId => QValue::Text(log.text(ev.id)),
        FieldV::EventType => QValue::Text(log.text(ev.type_symbol)),
        FieldV::EventTime => QValue::Int(ev.time_ms as int),
        FieldV::EventAttr(n) => first_attr(log, ev.attributes@, n, 0),
        FieldV::ObjectId => match o { Some(j) => QValue::Text(log.text(log.objects@[j].id)), None => QValue::Null },
        FieldV::ObjectType => match o { Some(j) => QValue::Text(log.text(log.objects@[j].type_symbol)), None => QValue::Null },
        FieldV::ObjectAttr(n) => match o { Some(j) => object_attr(log, j, ev.time_ms, n), None => QValue::Null },
    }
}

pub open spec fn operand_value(log: CompactOcelLog, e: int, o: Option<int>, x: OperandV) -> QValue {
    match x {
        OperandV::Field(f) => field_value(log, e, o, f),
        OperandV::Text(t) => QValue::Text(t),
        OperandV::Int(i) => QValue::Int(i as int),
        OperandV::Bool(b) => QValue::Bool(b),
        OperandV::Null => QValue::Null,
    }
}

/// The text of a value; null has none.
pub open spec fn display(v: QValue) -> Option<Seq<char>> {
    match v {
        QValue::Null => None,
        QValue::Text(t) => Some(t),
        QValue::Int(i) => Some(int_text(i)),
        QValue::Bool(b) => Some(if b { "true"@ } else { "false"@ }),
    }
}

/// Order of two non-null values: integers by number, others by text.
pub open spec fn value_order(a: QValue, b: QValue) -> Order3 {
    match (a, b) {
        (QValue::Int(i), QValue::Int(j)) => if i < j { Order3::Less } else if i == j { Order3::Equal } else { Order3::Greater },
        _ => seq_order(display(a)->0, display(b)->0),
    }
}

/// A comparison holds: both sides are non-null, equality goes by text,
/// order by [`value_order`].
pub open spec fn compares(a: QValue, op: CompareOp, b: QValue) -> bool {
    display(a) is Some && display(b) is Some && match op {
        CompareOp::Eq => display(a) == display(b),
        CompareOp::Ne => display(a) != display(b),
        CompareOp::Lt => value_order(a, b) == Order3::Less,
        CompareOp::Le => value_order(a, b) != Order3::Greater,
        CompareOp::Gt => value_order(a, b) == Order3::Greater,
        CompareOp::Ge => value_order(a, b) != Order3::Less,
    }
}

/// `t` matches the pattern `p`, where `%` stands for any run of characters
/// and other characters match up to ASCII case.
pub open spec fn like(t: Seq<char>, p: Seq<char>) -> bool
    decreases p.len(), t.len(),
{
    if p.len() == 0 {
        t.len() == 0
    } else if p[0] == '%' {
        like(t, p.drop_first()) || (t.len() > 0 && like(t.drop_first(), p))
    } else {
        t.len() > 0 && same_ci(t[0], p[0]) && like(t.drop_first(), p.drop_first())
    }
}

pub open spec fn holds(log: CompactOcelLog, e: int, o: Option<int>, c: CondV) -> bool
    decreases c,
{
    match c {
        CondV::Compare(a, op, b) => compares(operand_value(log, e, o, a), op, operand_value(log, e, o, b)),
        CondV::Like(a, b) => match (display(operand_value(log, e, o, a)), display(operand_value(log, e, o, b))) {
            (Some(x), Some(y)) => like(x, y),
            _ => false,
        },
        CondV::IsNull(a, not) => (operand_value(log, e, o, a) is Null) != not,
        CondV::Not(x) => !holds(log, e, o, *x),
        CondV::And(x, y) => holds(log, e, o, *x) && holds(log, e, o, *y),
        CondV::Or(x, y) => holds(log, e, o, *x) || holds(log, e, o, *y),
    }
}

pub open spec fn operand_refers(x: OperandV) -> bool {
    match x {
        OperandV::Field(f) => f is ObjectId || f is ObjectType || f is ObjectAttr,
        _ => false,
    }
}

/// The condition reads a field of an object.
pub open spec fn refers_object(c: CondV) -> bool
    decreases c,
{
    match c {
        CondV::Compare(a, _, b) => operand_refers(a) || operand_refers(b),
        CondV::Like(a, b) => operand_refers(a) || operand_refers(b),
        CondV::IsNull(a, _) => operand_refers(a),
        CondV::Not(x) => refers_object(*x),
        CondV::And(x, y) => refers_object(*x) || refers_object(*y),
        CondV::Or(x, y) => refers_object(*x) || refers_object(*y),
    }
}

pub open spec fn value_text(log: CompactOcelLog, e: int, o: Option<int>, x: OperandV) -> Option<Seq<char>> {
    display(operand_value(log, e, o, x))
}

/// Position of the object with id `id`, by the object index.
pub open spec fn index_of(log: CompactOcelLog, id: Symbol) -> Option<int> {
    if id.0 < log.object_index@.len() {
        match log.object_index@[id.0 as int] {
            Some(j) => Some(j as int),
            None => None,
        }
    } else {
        None
    }
}

/// Positions of the objects of type `leading` that the relationships name,
/// in their order.
pub open spec fn related_leading(log: CompactOcelLog, rels: Seq<Relationship>, leading: Seq<char>) -> Seq<int>
    decreases rels.len(),
{
    if rels.len() == 0 {
        Seq::empty()
    } else {
        let r = related_leading(log, rels.drop_last(), leading);
        match index_of(log, rels.last().object_id) {
            Some(j) => if log.text(log.objects@[j].type_symbol) == leading { r.push(j) } else { r },
            None => r,
        }
    }
}

/// The first related object, from the `i`-th on, for which the branch
/// holds: the branch's value on it.
pub open spec fn object_fire(log: CompactOcelLog, e: int, rel: Seq<int>, b: (CondV, OperandV), i: int) -> Option<Option<Seq<char>>>
    decreases rel.len() - i,
{
    if i < 0 || i >= rel.len() {
        None
    } else if holds(log, e, Some(rel[i]), b.0) {
        Some(value_text(log, e, Some(rel[i]), b.1))
    } else {
        object_fire(log, e, rel, b, i + 1)
    }
}

pub open spec fn branch_result(log: CompactOcelLog, e: int, rel: Seq<int>, b: (CondV, OperandV)) -> Option<Option<Seq<char>>> {
    if refers_object(b.0) {
        object_fire(log, e, rel, b, 0)
    } else if holds(log, e, None, b.0) {
        Some(value_text(log, e, None, b.1))
    } else {
        None
    }
}

/// The first branch, from the `i`-th on, that fires.
pub open spec fn fire(log: CompactOcelLog, e: int, rel: Seq<int>, bs: Seq<(CondV, OperandV)>, i: int) -> Option<Option<Seq<char>>>
    decreases bs.len() - i,
{
    if i < 0 || i >= bs.len() {
        None
    } else {
        match branch_result(log, e, rel, bs[i]) {
            Some(v) => Some(v),
            None => fire(log, e, rel, bs, i + 1),
        }
    }
}

/// The state the query gives event `e`: none where the leading type is no
/// object type or the event relates to no object of it; else the value of
/// the first branch that fires, or of `ELSE` (on the first related object
/// where it reads one).
pub open spec fn event_state(log: CompactOcelLog, q: QueryV, e: int) -> Option<Seq<char>> {
    let rel = related_leading(log, log.events@[e].relationships@, q.leading);
    if !has_object_type(log, q.leading) || rel.len() == 0 {
        None
    } else {
        match fire(log, e, rel, q.branches, 0) {
            Some(v) => v,
            None => match q.else_value {
                None => None,
                Some(x) => if operand_refers(x) { value_text(log, e, Some(rel[0]), x) } else { value_text(log, e, None, x) },
            },
        }
    }
}

/// The state of every event, in order.
pub open spec fn query_states(log: CompactOcelLog, q: QueryV) -> Seq<Option<Seq<char>>> {
    Seq::new(log.events@.len(), |e: int| event_state(log, q, e))
}


fn display_of(v: &QVal) -> (r: Option<String>)
    ensures
        match r {
            Some(t) => display(qval_view(*v)) == Some(t@),
            None => display(qval_view(*v)) is None,
        },
{
    match v {
        QVal::Null => None,
        QVal::Text(t) => Some(owned(t.as_str())),
        QVal::Int(i) => Some(int_to_text(*i)),
        QVal::Bool(b) => {
            proof { reveal_strlit("true"); reveal_strlit("false"); }
            if *b { Some(owned("true")) } else { Some(owned("false")) }
        },
    }
}

fn compares_exec(a: &QVal, op: CompareOp, b: &QVal) -> (r: bool)
    ensures
        r == compares(qval_view(*a), op, qval_view(*b)),
{
    let x = match display_of(a) { Some(x) => x, None => return false };
    let y = match display_of(b) { Some(y) => y, None => return false };
    let ord = match (a, b) {
        (QVal::Int(i), QVal::Int(j)) => if *i < *j { Order3::Less } else if *i == *j { Order3::Equal } else { Order3::Greater },
        _ => text_order(x.as_str(), y.as_str()),
    };
    assert(ord == value_order(qval_view(*a), qval_view(*b)));
    match op {
        CompareOp::Eq => str_eq(x.as_str(), y.as_str()),
        CompareOp::Ne => !str_eq(x.as_str(), y.as_str()),
        CompareOp::Lt => ord == Order3::Less,
        CompareOp::Le => ord != Order3::Greater,
        CompareOp::Gt => ord == Order3::Greater,
        CompareOp::Ge => ord != Order3::Less,
    }
}

fn like_at(t: &Vec<char>, i: usize, p: &Vec<char>, j: usize) -> (r: bool)
    requires
        i <= t@.len(),
        j <= p@.len(),
    ensures
        r == like(t@.skip(i as int), p@.skip(j as int)),
    decreases p@.len() - j, t@.len() - i,
{
    let ghost ts = t@.skip(i as int);
    let ghost ps = p@.skip(j as int);
    if j == p.len() {
        return i == t.len();
    }
    assert(ps[0] == p@[j as int]);
    assert(ps.drop_first() =~= p@.skip(j + 1));
    if i < t.len() {
        assert(ts[0] == t@[i as int]);
        assert(ts.drop_first() =~= t@.skip(i + 1));
    }
    if p[j] == '%' {
        like_at(t, i, p, j + 1) || (i < t.len() && like_at(t, i + 1, p, j))
    } else {
        i < t.len() && same_ci_char(t[i], p[j]) && like_at(t, i + 1, p, j + 1)
    }
}

fn like_exec(x: &str, y: &str) -> (r: bool)
    ensures
        r == like(x@, y@),
{
    let t = str_chars(x);
    let p = str_chars(y);
    assert(t@.skip(0) =~= t@);
    assert(p@.skip(0) =~= p@);
    like_at(&t, 0, &p, 0)
}

fn operand_refers_exec(x: &Operand) -> (r: bool)
    ensures
        r == operand_refers(operand_view(*x)),
{
    match x {
        Operand::Field(Field::ObjectId) => true,
        Operand::Field(Field::ObjectType) => true,
        Operand::Field(Field::ObjectAttr(_)) => true,
        _ => false,
    }
}

fn refers_object_exec(c: &Cond) -> (r: bool)
    ensures
        r == refers_object(cond_view(*c)),
    decreases c,
{
    match c {
        Cond::Compare(a, _, b) => operand_refers_exec(a) || operand_refers_exec(b),
        Cond::Like(a, b) => operand_refers_exec(a) || operand_refers_exec(b),
        Cond::IsNull(a, _) => operand_refers_exec(a),
        Cond::Not(x) => refers_object_exec(x),
        Cond::And(x, y) => refers_object_exec(x) || refers_object_exec(y),
        Cond::Or(x, y) => refers_object_exec(x) || refers_object_exec(y),
    }
}

impl CompactOcelLog {
    fn attr_qval(&self, v: AttrValue) -> (r: QVal)
        requires
            self.wf(),
            crate::model::value_ok(self.pool@.len(), v),
        ensures
            qval_view(r) == attr_qvalue(*self, v),
    {
        match v {
            AttrValue::String(s) => QVal::Text(owned(self.pool.resolve(s))),
            AttrValue::Float(s) => QVal::Text(owned(self.pool.resolve(s))),
            AttrValue::Integer(i) => QVal::Int(i),
            AttrValue::Time(ms) => QVal::Int(ms),
            AttrValue::Boolean(b) => QVal::Bool(b),
        }
    }

    fn event_attr(&self, e: usize, n: &str) -> (r: QVal)
        requires
            self.wf(),
            e < self.events@.len(),
        ensures
            qval_view(r) == first_attr(*self, self.events@[e as int].attributes@, n@, 0),
    {
        let ghost attrs = self.events@[e as int].attributes@;
        assert(crate::model::event_ok(self.pool@.len(), self.events@[e as int]));
        let mut k: usize = 0;
        while k < self.events[e].attributes.len()
            invariant
                self.wf(),
                e < self.events@.len(),
                attrs == self.events@[e as int].attributes@,
                crate::model::attributes_ok(self.pool@.len(), attrs),
                k <= attrs.len(),
                first_attr(*self, attrs, n@, 0) == first_attr(*self, attrs, n@, k as int),
            decreases attrs.len() - k,
        {
            let a = self.events[e].attributes[k];
            assert(crate::model::sym_ok(self.pool@.len(), attrs[k as int].name));
            if str_eq(self.pool.resolve(a.name), n) {
                return self.attr_qval(a.value);
            }
            k = k + 1;
        }
        QVal::Null
    }

    fn object_attr_at(&self, o: usize, t: i64, n: &str) -> (r: QVal)
        requires
            self.wf(),
            o < self.objects@.len(),
        ensures
            qval_view(r) == object_attr(*self, o as int, t, n@),
    {
        let ghost attrs = self.objects@[o as int].attributes@;
        assert(crate::model::object_ok(self.pool@.len(), self.events@.len(), self.objects@[o as int]));
        let mut best: Option<(i64, AttrValue)> = None;
        let mut k: usize = 0;
        while k < self.objects[o].attributes.len()
            invariant
                self.wf(),
                o < self.objects@.len(),
                attrs == self.objects@[o as int].attributes@,
                crate::model::timed_attributes_ok(self.pool@.len(), attrs),
                k <= attrs.len(),
                best == latest_upto(*self, attrs, t, n@, k as int),
                match best { Some(p) => crate::model::value_ok(self.pool@.len(), p.1), None => true },
            decreases attrs.len() - k,
        {
            let a = self.objects[o].attributes[k];
            assert(crate::model::sym_ok(self.pool@.len(), attrs[k as int].name));
            let later = match best { Some(p) => a.time_ms >= p.0, None => true };
            if a.time_ms <= t && str_eq(self.pool.resolve(a.name), n) && later {
                best = Some((a.time_ms, a.value));
            }
            k = k + 1;
        }
        match best {
            Some(p) => self.attr_qval(p.1),
            None => QVal::Null,
        }
    }

    fn field_val(&self, e: usize, o: Option<usize>, f: &Field) -> (r: QVal)
        requires
            self.wf(),
            e < self.events@.len(),
            match o { Some(j) => j < self.objects@.len(), None => true },
        ensures
            qval_view(r) == field_value(*self, e as int, match o { Some(j) => Some(j as int), None => None }, field_view(*f)),
    {
        assert(crate::model::event_ok(self.pool@.len(), self.events@[e as int]));
        if let Some(j) = o {
            assert(crate::model::object_ok(self.pool@.len(), self.events@.len(), self.objects@[j as int]));
        }
        match f {
            Field::EventId => QVal::Text(owned(self.pool.resolve(self.events[e].id))),
            Field::EventType => QVal::Text(owned(self.pool.resolve(self.events[e].type_symbol))),
            Field::EventTime => QVal::Int(self.events[e].time_ms),
            Field::EventAttr(n) => self.event_attr(e, n.as_str()),
            Field::ObjectId => match o { Some(j) => QVal::Text(owned(self.pool.resolve(self.objects[j].id))), None => QVal::Null },
            Field::ObjectType => match o { Some(j) => QVal::Text(owned(self.pool.resolve(self.objects[j].type_symbol))), None => QVal::Null },
            Field::ObjectAttr(n) => match o { Some(j) => self.object_attr_at(j, self.events[e].time_ms, n.as_str()), None => QVal::Null },
        }
    }

    fn operand_val(&self, e: usize, o: Option<usize>, x: &Operand) -> (r: QVal)
        requires
            self.wf(),
            e < self.events@.len(),
            match o { Some(j) => j < self.objects@.len(), None => true },
        ensures
            qval_view(r) == operand_value(*self, e as int, match o { Some(j) => Some(j as int), None => None }, operand_view(*x)),
    {
        match x {
            Operand::Field(f) => self.field_val(e, o, f),
            Operand::Text(t) => QVal::Text(owned(t.as_str())),
            Operand::Int(i) => QVal::Int(*i),
            Operand::Bool(b) => QVal::Bool(*b),
            Operand::Null => QVal::Null,
        }
    }

    fn holds_exec(&self, e: usize, o: Option<usize>, c: &Cond) -> (r: bool)
        requires
            self.wf(),
            e < self.events@.len(),
            match o { Some(j) => j < self.objects@.len(), None => true },
        ensures
            r == holds(*self, e as int, match o { Some(j) => Some(j as int), None => None }, cond_view(*c)),
        decreases c,
    {
        match c {
            Cond::Compare(a, op, b) => {
                let x = self.operand_val(e, o, a);
                let y = self.operand_val(e, o, b);
                compares_exec(&x, *op, &y)
            },
            Cond::Like(a, b) => {
                let x = self.operand_val(e, o, a);
                let y = self.operand_val(e, o, b);
                match (display_of(&x), display_of(&y)) {
                    (Some(s), Some(t)) => like_exec(s.as_str(), t.as_str()),
                    _ => false,
                }
            },
            Cond::IsNull(a, not) => {
                let x = self.operand_val(e, o, a);
                let null = match x { QVal::Null => true, _ => false };
                null != *not
            },
            Cond::Not(x) => !self.holds_exec(e, o, x),
            Cond::And(x, y) => self.holds_exec(e, o, x) && self.holds_exec(e, o, y),
            Cond::Or(x, y) => self.holds_exec(e, o, x) || self.holds_exec(e, o, y),
        }
    }
}


pub open spec fn opt_text(r: Option<String>) -> Option<Seq<char>> {
    match r {
        Some(t) => Some(t@),
        None => None,
    }
}

pub open spec fn positions_view(v: Seq<usize>) -> Seq<int> {
    v.map_values(|j: usize| j as int)
}

impl CompactOcelLog {
    fn value_text_exec(&self, e: usize, o: Option<usize>, x: &Operand) -> (r: Option<String>)
        requires
            self.wf(),
            e < self.events@.len(),
            match o { Some(j) => j < self.objects@.len(), None => true },
        ensures
            opt_text(r) == value_text(*self, e as int, match o { Some(j) => Some(j as int), None => None }, operand_view(*x)),
    {
        let v = self.operand_val(e, o, x);
        display_of(&v)
    }

    /// Positions of the objects of the leading type `ls` related to event `e`.
    fn leading_objects(&self, e: usize, ls: Symbol, Ghost(leading): Ghost<Seq<char>>) -> (r: Vec<usize>)
        requires
            self.wf(),
            e < self.events@.len(),
            ls.0 < self.pool@.len(),
            self.text(ls) == leading,
        ensures
            positions_view(r@) == related_leading(*self, self.events@[e as int].relationships@, leading),
            forall|i: int| 0 <= i < r@.len() ==> #[trigger] r@[i] < self.objects@.len(),
    {
        let ghost rels = self.events@[e as int].relationships@;
        let mut out: Vec<usize> = Vec::new();
        let mut k: usize = 0;
        proof { self.pool.lemma_wf_distinct(); }
        while k < self.events[e].relationships.len()
            invariant
                self.wf(),
                e < self.events@.len(),
                rels == self.events@[e as int].relationships@,
                ls.0 < self.pool@.len(),
                self.text(ls) == leading,
                crate::pool::distinct_texts(self.pool@),
                k <= rels.len(),
                positions_view(out@) == related_leading(*self, rels.take(k as int), leading),
                forall|i: int| 0 <= i < out@.len() ==> #[trigger] out@[i] < self.objects@.len(),
            decreases rels.len() - k,
        {
            let id = self.events[e].relationships[k].object_id;
            assert(rels.take(k + 1).drop_last() =~= rels.take(k as int));
            let ghost before = out@;
            if id.0 < self.object_index.len() {
                match self.object_index[id.0] {
                    Some(j) => {
                        assert(crate::model::object_ok(self.pool@.len(), self.events@.len(), self.objects@[j as int]));
                        let ty = self.objects[j].type_symbol;
                        proof {
                            if self.text(ty) == leading && ty != ls {
                                if ty.0 < ls.0 {
                                    assert(self.pool@[ty.0 as int] != self.pool@[ls.0 as int]);
                                } else {
                                    assert(self.pool@[ls.0 as int] != self.pool@[ty.0 as int]);
                                }
                            }
                        }
                        if ty == ls {
                            out.push(j);
                            assert(positions_view(out@) =~= positions_view(before).push(j as int));
                        }
                    },
                    None => {},
                }
            }
            k = k + 1;
        }
        assert(rels.take(rels.len() as int) =~= rels);
        out
    }

    fn branch_exec(&self, e: usize, rel: &Vec<usize>, b: &Branch) -> (r: Option<Option<String>>)
        requires
            self.wf(),
            e < self.events@.len(),
            forall|i: int| 0 <= i < rel@.len() ==> #[trigger] rel@[i] < self.objects@.len(),
        ensures
            match r {
                Some(v) => branch_result(*self, e as int, positions_view(rel@), branch_view(*b)) == Some(opt_text(v)),
                None => branch_result(*self, e as int, positions_view(rel@), branch_view(*b)) is None,
            },
    {
        let ghost rv = positions_view(rel@);
        let ghost bv = branch_view(*b);
        if refers_object_exec(&b.condition) {
            let mut i: usize = 0;
            while i < rel.len()
                invariant
                    self.wf(),
                    e < self.events@.len(),
                    forall|x: int| 0 <= x < rel@.len() ==> #[trigger] rel@[x] < self.objects@.len(),
                    rv == positions_view(rel@),
                    bv == branch_view(*b),
                    refers_object(bv.0),
                    i <= rel@.len(),
                    object_fire(*self, e as int, rv, bv, 0) == object_fire(*self, e as int, rv, bv, i as int),
                decreases rel.len() - i,
            {
                let o = rel[i];
                assert(rv[i as int] == o as int);
                if self.holds_exec(e, Some(o), &b.condition) {
                    return Some(self.value_text_exec(e, Some(o), &b.value));
                }
                i = i + 1;
            }
            None
        } else if self.holds_exec(e, None, &b.condition) {
            Some(self.value_text_exec(e, None, &b.value))
        } else {
            None
        }
    }

    fn event_state_exec(&self, q: &StateQuery, ls: Symbol, e: usize) -> (r: Option<String>)
        requires
            self.wf(),
            e < self.events@.len(),
            ls.0 < self.pool@.len(),
            self.text(ls) == q.model().leading,
            has_object_type(*self, q.model().leading),
        ensures
            opt_text(r) == event_state(*self, q.model(), e as int),
    {
        let ghost qm = q.model();
        let rel = self.leading_objects(e, ls, Ghost(qm.leading));
        let ghost rv = positions_view(rel@);
        if rel.len() == 0 {
            return None;
        }
        let mut i: usize = 0;
        while i < q.branches.len()
            invariant
                self.wf(),
                e < self.events@.len(),
                forall|x: int| 0 <= x < rel@.len() ==> #[trigger] rel@[x] < self.objects@.len(),
                rv == positions_view(rel@),
                rv == related_leading(*self, self.events@[e as int].relationships@, qm.leading),
                rv.len() > 0,
                has_object_type(*self, qm.leading),
                qm == q.model(),
                i <= q.branches@.len(),
                fire(*self, e as int, rv, qm.branches, 0) == fire(*self, e as int, rv, qm.branches, i as int),
            decreases q.branches.len() - i,
        {
            assert(qm.branches[i as int] == branch_view(q.branches@[i as int]));
            match self.branch_exec(e, &rel, &q.branches[i]) {
                Some(v) => return v,
                None => {},
            }
            i = i + 1;
        }
        match &q.else_value {
            None => None,
            Some(x) => if operand_refers_exec(x) {
                assert(rv[0] == rel@[0] as int);
                self.value_text_exec(e, Some(rel[0]), x)
            } else {
                self.value_text_exec(e, None, x)
            },
        }
    }

    /// The state a query gives each event, in order.
    pub fn evaluate_state_query(&self, q: &StateQuery) -> (r: Vec<Option<String>>)
        requires
            self.wf(),
        ensures
            r@.map_values(|s: Option<String>| opt_text(s)) == query_states(*self, q.model()),
    {
        let mut out: Vec<Option<String>> = Vec::new();
        let ls = self.object_type_symbol(q.leading_object_type.as_str());
        let mut e: usize = 0;
        while e < self.events.len()
            invariant
                self.wf(),
                e <= self.events@.len(),
                out@.len() == e,
                match ls {
                    Some(s) => s.0 < self.pool@.len() && self.text(s) == q.model().leading && has_object_type(*self, q.model().leading),
                    None => !has_object_type(*self, q.model().leading),
                },
                forall|i: int| 0 <= i < e ==> opt_text(#[trigger] out@[i]) == event_state(*self, q.model(), i),
            decreases self.events.len() - e,
        {
            let st = match ls {
                Some(s) => self.event_state_exec(q, s, e),
                None => None,
            };
            out.push(st);
            e = e + 1;
        }
        assert(out@.map_values(|s: Option<String>| opt_text(s)) =~= query_states(*self, q.model()));
        out
    }
}


/// The events, in order, that get a state, with their states.
pub open spec fn picked(events: Seq<Event>, states: Seq<Option<Seq<char>>>, k: int) -> Seq<(Symbol, Seq<char>)>
    decreases k,
{
    if k <= 0 {
        Seq::empty()
    } else {
        let r = picked(events, states, k - 1);
        match states[k - 1] {
            Some(s) => r.push((events[k - 1].id, s)),
            None => r,
        }
    }
}

/// One assignment for each event that has a state, in event order.
pub fn state_assignments(events: &Vec<Event>, states: &Vec<Option<String>>) -> (r: Vec<StateAssignment>)
    requires
        states@.len() == events@.len(),
    ensures
        assignments_view(r@) == picked(events@, states@.map_values(|s: Option<String>| opt_text(s)), events@.len() as int),
{
    let ghost sv = states@.map_values(|s: Option<String>| opt_text(s));
    let mut out: Vec<StateAssignment> = Vec::new();
    let mut k: usize = 0;
    while k < events.len()
        invariant
            states@.len() == events@.len(),
            sv == states@.map_values(|s: Option<String>| opt_text(s)),
            k <= events@.len(),
            assignments_view(out@) == picked(events@, sv, k as int),
        decreases events.len() - k,
    {
        let ghost before = out@;
        match &states[k] {
            Some(s) => {
                out.push(StateAssignment { event_id: events[k].id, state: owned(s.as_str()) });
                assert(assignments_view(out@) =~= assignments_view(before).push((events@[k as int].id, sv[k as int]->0)));
            },
            None => {},
        }
        k = k + 1;
    }
    out
}

} // verus!

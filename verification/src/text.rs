use vstd::prelude::*;

verus! {

/// Three-way result of comparing two texts.
#[derive(Clone, Copy, PartialEq, Eq, Structural, Debug)]
pub enum Order3 {
    Less,
    Equal,
    Greater,
}

/// Lexicographic order of two character sequences by code point, which is the
/// order of their UTF-8 encodings byte by byte.
pub open spec fn seq_order(a: Seq<char>, b: Seq<char>) -> Order3
    decreases a.len(),
{
    if a.len() == 0 {
        if b.len() == 0 { Order3::Equal } else { Order3::Less }
    } else if b.len() == 0 {
        Order3::Greater
    } else if (a[0] as int) < (b[0] as int) {
        Order3::Less
    } else if (a[0] as int) > (b[0] as int) {
        Order3::Greater
    } else {
        seq_order(a.drop_first(), b.drop_first())
    }
}

pub open spec fn seq_less(a: Seq<char>, b: Seq<char>) -> bool {
    seq_order(a, b) == Order3::Less
}

pub open spec fn seq_less_eq(a: Seq<char>, b: Seq<char>) -> bool {
    seq_order(a, b) != Order3::Greater
}

/// `seq_order` is a total order: it is `Equal` only on equal texts, it is
/// antisymmetric and it is transitive.
pub proof fn lemma_seq_order_equal(a: Seq<char>, b: Seq<char>)
    ensures
        seq_order(a, b) == Order3::Equal <==> a == b,
    decreases a.len(),
{
    if a.len() > 0 && b.len() > 0 && a[0] == b[0] {
        lemma_seq_order_equal(a.drop_first(), b.drop_first());
        if a.drop_first() == b.drop_first() {
            assert(a =~= seq![a[0]] + a.drop_first());
            assert(b =~= seq![b[0]] + b.drop_first());
        }
        if a == b {
            assert(a.drop_first() =~= b.drop_first());
        }
    }
    if a.len() == 0 && b.len() == 0 {
        assert(a =~= b);
    }
}

pub proof fn lemma_seq_order_flip(a: Seq<char>, b: Seq<char>)
    ensures
        seq_order(a, b) == Order3::Less <==> seq_order(b, a) == Order3::Greater,
    decreases a.len(),
{
    if a.len() > 0 && b.len() > 0 && a[0] == b[0] {
        lemma_seq_order_flip(a.drop_first(), b.drop_first());
    }
}

pub proof fn lemma_seq_order_trans(a: Seq<char>, b: Seq<char>, c: Seq<char>)
    requires
        seq_order(a, b) == Order3::Less,
        seq_order(b, c) == Order3::Less,
    ensures
        seq_order(a, c) == Order3::Less,
    decreases a.len(),
{
    if a.len() > 0 && b.len() > 0 && c.len() > 0 && a[0] == b[0] && b[0] == c[0] {
        lemma_seq_order_trans(a.drop_first(), b.drop_first(), c.drop_first());
    }
}

/// Returns the characters of a string slice.
/// Trusted: `str::chars` collected into a `Vec`; the documentation of
/// `chars` says it yields the characters of the slice in order.
#[verifier::external_body]
pub fn str_chars(s: &str) -> (v: Vec<char>)
    ensures
        v@ == s@,
{
    s.chars().collect()
}

/// Builds a string from characters.
/// Trusted: `String: FromIterator<char>`; the documentation says the string
/// holds the characters in iteration order.
#[verifier::external_body]
pub fn string_from_chars(cs: &[char]) -> (s: String)
    ensures
        s@ == cs@,
{
    cs.iter().collect()
}

/// Appends one character.
/// Trusted: `String::push`, documented to append the character to the end.
#[verifier::external_body]
pub fn push_char(s: &mut String, c: char)
    ensures
        final(s)@ == old(s)@.push(c),
{
    s.push(c)
}

/// Appends a string slice (std `String::push_str`).
pub fn push_text(s: &mut String, t: &str)
    ensures
        final(s)@ == old(s)@ + t@,
{
    s.append(t)
}

/// Equality of two string slices.
/// Trusted: `<str as PartialEq>::eq`, documented to compare the contents.
#[verifier::external_body]
pub fn str_eq(a: &str, b: &str) -> (r: bool)
    ensures
        r == (a@ == b@),
{
    a == b
}

/// Copies a string slice into an owned string.
pub fn owned(s: &str) -> (r: String)
    ensures
        r@ == s@,
{
    s.to_owned()
}

/// Lexicographic comparison of two character vectors.
pub fn chars_order(a: &[char], b: &[char]) -> (r: Order3)
    ensures
        r == seq_order(a@, b@),
{
    let mut i: usize = 0;
    assert(a@.skip(0) =~= a@);
    assert(b@.skip(0) =~= b@);
    while i < a.len() && i < b.len()
        invariant
            i <= a@.len(),
            i <= b@.len(),
            seq_order(a@, b@) == seq_order(a@.skip(i as int), b@.skip(i as int)),
            forall|k: int| 0 <= k < i ==> a@[k] == b@[k],
        decreases a.len() - i,
    {
        let x = a[i];
        let y = b[i];
        assert(a@.skip(i as int)[0] == a@[i as int]);
        assert(b@.skip(i as int)[0] == b@[i as int]);
        if x < y {
            return Order3::Less;
        }
        if x > y {
            return Order3::Greater;
        }
        assert(a@.skip(i as int).drop_first() =~= a@.skip(i + 1));
        assert(b@.skip(i as int).drop_first() =~= b@.skip(i + 1));
        i = i + 1;
    }
    if i == a.len() && i == b.len() {
        assert(a@.skip(i as int).len() == 0);
        Order3::Equal
    } else if i == a.len() {
        Order3::Less
    } else {
        Order3::Greater
    }
}

/// Lexicographic comparison of two strings.
pub fn text_order(a: &str, b: &str) -> (r: Order3)
    ensures
        r == seq_order(a@, b@),
{
    let ca = str_chars(a);
    let cb = str_chars(b);
    chars_order(ca.as_slice(), cb.as_slice())
}


/// Unicode `White_Space`, the set that `char::is_whitespace` tests.
pub open spec fn is_white(c: char) -> bool {
    let v = c as int;
    (0x9 <= v <= 0xD) || v == 0x20 || v == 0x85 || v == 0xA0 || v == 0x1680 || (0x2000 <= v
        <= 0x200A) || v == 0x2028 || v == 0x2029 || v == 0x202F || v == 0x205F || v == 0x3000
}

pub fn char_is_white(c: char) -> (r: bool)
    ensures
        r == is_white(c),
{
    let v = c as u32;
    (0x9 <= v && v <= 0xD) || v == 0x20 || v == 0x85 || v == 0xA0 || v == 0x1680 || (0x2000 <= v
        && v <= 0x200A) || v == 0x2028 || v == 0x2029 || v == 0x202F || v == 0x205F || v == 0x3000
}

/// Number of leading white-space characters.
pub open spec fn lead_white(s: Seq<char>) -> nat
    decreases s.len(),
{
    if s.len() > 0 && is_white(s[0]) {
        1 + lead_white(s.drop_first())
    } else {
        0
    }
}

/// Number of trailing white-space characters.
pub open spec fn trail_white(s: Seq<char>) -> nat
    decreases s.len(),
{
    if s.len() > 0 && is_white(s.last()) {
        1 + trail_white(s.drop_last())
    } else {
        0
    }
}

pub open spec fn trim_start_seq(s: Seq<char>) -> Seq<char> {
    s.skip(lead_white(s) as int)
}

pub open spec fn trim_end_seq(s: Seq<char>) -> Seq<char> {
    s.take(s.len() - trail_white(s))
}

/// `str::trim`: both ends stripped of white space.
pub open spec fn trim_seq(s: Seq<char>) -> Seq<char> {
    trim_end_seq(trim_start_seq(s))
}

pub proof fn lemma_lead_white_bound(s: Seq<char>)
    ensures
        lead_white(s) <= s.len(),
        forall|k: int| 0 <= k < lead_white(s) ==> is_white(#[trigger] s[k]),
        lead_white(s) < s.len() ==> !is_white(s[lead_white(s) as int]),
    decreases s.len(),
{
    if s.len() > 0 && is_white(s[0]) {
        lemma_lead_white_bound(s.drop_first());
        assert forall|k: int| 0 <= k < lead_white(s) implies is_white(#[trigger] s[k]) by {
            if k > 0 {
                assert(s[k] == s.drop_first()[k - 1]);
            }
        }
        if lead_white(s) < s.len() {
            assert(s[lead_white(s) as int] == s.drop_first()[lead_white(s.drop_first()) as int]);
        }
    }
}

pub proof fn lemma_trail_white_bound(s: Seq<char>)
    ensures
        trail_white(s) <= s.len(),
        forall|k: int| s.len() - trail_white(s) <= k < s.len() ==> is_white(#[trigger] s[k]),
        trail_white(s) < s.len() ==> !is_white(s[s.len() - trail_white(s) - 1]),
    decreases s.len(),
{
    if s.len() > 0 && is_white(s.last()) {
        lemma_trail_white_bound(s.drop_last());
        assert forall|k: int| s.len() - trail_white(s) <= k < s.len() implies is_white(#[trigger] s[k]) by {
            if k < s.len() - 1 {
                assert(s[k] == s.drop_last()[k]);
            }
        }
        if trail_white(s) < s.len() {
            assert(s[s.len() - trail_white(s) - 1] == s.drop_last()[s.drop_last().len() - trail_white(s.drop_last()) - 1]);
        }
    }
}

proof fn lemma_lead_white_exact(s: Seq<char>, n: int)
    requires
        0 <= n <= s.len(),
        forall|k: int| 0 <= k < n ==> is_white(#[trigger] s[k]),
        n < s.len() ==> !is_white(s[n]),
    ensures
        lead_white(s) == n,
    decreases s.len(),
{
    if n > 0 {
        assert forall|k: int| 0 <= k < n - 1 implies is_white(#[trigger] s.drop_first()[k]) by {
            assert(s.drop_first()[k] == s[k + 1]);
        }
        if n - 1 < s.drop_first().len() {
            assert(s.drop_first()[n - 1] == s[n]);
        }
        lemma_lead_white_exact(s.drop_first(), n - 1);
    }
}

proof fn lemma_trail_white_exact(s: Seq<char>, n: int)
    requires
        0 <= n <= s.len(),
        forall|k: int| s.len() - n <= k < s.len() ==> is_white(#[trigger] s[k]),
        n < s.len() ==> !is_white(s[s.len() - n - 1]),
    ensures
        trail_white(s) == n,
    decreases s.len(),
{
    if n > 0 {
        let t = s.drop_last();
        assert forall|k: int| t.len() - (n - 1) <= k < t.len() implies is_white(#[trigger] t[k]) by {
            assert(t[k] == s[k]);
        }
        if n - 1 < t.len() {
            assert(t[t.len() - (n - 1) - 1] == s[s.len() - n - 1]);
        }
        lemma_trail_white_exact(t, n - 1);
    }
}

/// `str::trim` on a character vector.
pub fn trim_chars(s: &[char]) -> (r: Vec<char>)
    ensures
        r@ == trim_seq(s@),
{
    let mut a: usize = 0;
    while a < s.len() && char_is_white(s[a])
        invariant
            a <= s@.len(),
            forall|k: int| 0 <= k < a ==> is_white(#[trigger] s@[k]),
        decreases s.len() - a,
    {
        a = a + 1;
    }
    proof { lemma_lead_white_exact(s@, a as int); }
    let mut b: usize = s.len();
    while b > a && char_is_white(s[b - 1])
        invariant
            a <= b <= s@.len(),
            forall|k: int| b <= k < s@.len() ==> is_white(#[trigger] s@[k]),
        decreases b,
    {
        b = b - 1;
    }
    let mut r: Vec<char> = Vec::new();
    let mut i = a;
    while i < b
        invariant
            a <= i <= b <= s@.len(),
            r@ == s@.subrange(a as int, i as int),
        decreases b - i,
    {
        r.push(s[i]);
        i = i + 1;
        assert(r@ =~= s@.subrange(a as int, i as int));
    }
    proof {
        let t = s@.skip(a as int);
        assert(trim_start_seq(s@) == t);
        let n = s@.len() - b;
        assert forall|k: int| t.len() - n <= k < t.len() implies is_white(#[trigger] t[k]) by {
            assert(t[k] == s@[k + a]);
        }
        if n < t.len() {
            assert(t[t.len() - n - 1] == s@[b - 1]);
        }
        lemma_trail_white_exact(t, n);
        assert(r@ =~= t.take(t.len() - n));
    }
    r
}

/// `str::trim` on a string slice.
pub fn trim_text(s: &str) -> (r: String)
    ensures
        r@ == trim_seq(s@),
{
    let cs = str_chars(s);
    let t = trim_chars(cs.as_slice());
    string_from_chars(t.as_slice())
}

/// ASCII lower-casing of one character.
pub open spec fn lower_char(c: char) -> char {
    if 'A' <= c <= 'Z' {
        ((c as u32) + 32) as char
    } else {
        c
    }
}

pub open spec fn ascii_lower(s: Seq<char>) -> Seq<char> {
    s.map_values(|c: char| lower_char(c))
}

pub fn lower_one(c: char) -> (r: char)
    ensures
        r == lower_char(c),
{
    if 'A' <= c && c <= 'Z' {
        let v = (c as u32) + 32;
        assert(0x61 <= v <= 0x7a);
        char_from_ascii(v)
    } else {
        c
    }
}

/// Character with the given ASCII code.
pub fn char_from_ascii(v: u32) -> (c: char)
    requires
        v < 128,
    ensures
        c == v as char,
        c as u32 == v,
{
    let b: u8 = v as u8;
    b as char
}

/// `to_ascii_lowercase` on characters.
pub fn lower_chars(s: &[char]) -> (r: Vec<char>)
    ensures
        r@ == ascii_lower(s@),
{
    let mut r: Vec<char> = Vec::new();
    let mut i: usize = 0;
    while i < s.len()
        invariant
            i <= s@.len(),
            r@ == ascii_lower(s@.take(i as int)),
        decreases s.len() - i,
    {
        r.push(lower_one(s[i]));
        i = i + 1;
        assert(r@ =~= ascii_lower(s@.take(i as int)));
    }
    assert(s@.take(s@.len() as int) =~= s@);
    r
}

/// `str::to_ascii_lowercase`.
pub fn lower_text(s: &str) -> (r: String)
    ensures
        r@ == ascii_lower(s@),
{
    let cs = str_chars(s);
    let t = lower_chars(cs.as_slice());
    string_from_chars(t.as_slice())
}

pub open spec fn seq_ends_with(s: Seq<char>, suffix: Seq<char>) -> bool {
    suffix.len() <= s.len() && s.skip(s.len() - suffix.len()) == suffix
}

pub open spec fn seq_starts_with(s: Seq<char>, prefix: Seq<char>) -> bool {
    prefix.len() <= s.len() && s.take(prefix.len() as int) == prefix
}

/// Whether `needle` occurs in `hay` at position `i`.
pub open spec fn occurs_at(hay: Seq<char>, needle: Seq<char>, i: int) -> bool {
    0 <= i && i + needle.len() <= hay.len() && hay.subrange(i, i + needle.len()) == needle
}

pub open spec fn seq_contains_text(hay: Seq<char>, needle: Seq<char>) -> bool {
    exists|i: int| occurs_at(hay, needle, i)
}

pub fn chars_occur_at(hay: &[char], needle: &[char], i: usize) -> (r: bool)
    ensures
        r == occurs_at(hay@, needle@, i as int),
{
    if needle.len() > hay.len() || i > hay.len() - needle.len() {
        return false;
    }
    let mut k: usize = 0;
    while k < needle.len()
        invariant
            k <= needle@.len(),
            i + needle@.len() <= hay@.len(),
            hay@.len() <= usize::MAX,
            forall|j: int| 0 <= j < k ==> hay@[i + j] == needle@[j],
        decreases needle.len() - k,
    {
        if hay[i + k] != needle[k] {
            assert(hay@.subrange(i as int, i + needle@.len())[k as int] != needle@[k as int]);
            return false;
        }
        k = k + 1;
    }
    assert(hay@.subrange(i as int, i + needle@.len()) =~= needle@);
    true
}

/// `str::contains` for a string needle, on characters.
pub fn chars_contain(hay: &[char], needle: &[char]) -> (r: bool)
    ensures
        r == seq_contains_text(hay@, needle@),
{
    if needle.len() > hay.len() {
        return false;
    }
    if needle.len() == 0 {
        assert(occurs_at(hay@, needle@, 0)) by {
            assert(hay@.subrange(0, 0) =~= needle@);
        }
        return true;
    }
    let mut i: usize = 0;
    while i <= hay.len() - needle.len()
        invariant
            1 <= needle@.len() <= hay@.len() <= usize::MAX,
            i <= hay@.len() - needle@.len() + 1,
            forall|j: int| 0 <= j < i ==> !occurs_at(hay@, needle@, j),
        decreases hay.len() - needle.len() + 1 - i,
    {
        if chars_occur_at(hay, needle, i) {
            return true;
        }
        i = i + 1;
    }
    false
}

/// `str::contains` for a string needle.
pub fn text_contains(hay: &str, needle: &str) -> (r: bool)
    ensures
        r == seq_contains_text(hay@, needle@),
{
    let h = str_chars(hay);
    let n = str_chars(needle);
    chars_contain(h.as_slice(), n.as_slice())
}

/// `str::ends_with` for a string suffix.
pub fn text_ends_with(s: &str, suffix: &str) -> (r: bool)
    ensures
        r == seq_ends_with(s@, suffix@),
{
    let h = str_chars(s);
    let n = str_chars(suffix);
    if n.len() > h.len() {
        return false;
    }
    let r = chars_occur_at(h.as_slice(), n.as_slice(), h.len() - n.len());
    assert(h@.subrange(h@.len() - n@.len(), h@.len() as int) =~= h@.skip(h@.len() - n@.len()));
    r
}

/// `str::starts_with` for a string prefix.
pub fn text_starts_with(s: &str, prefix: &str) -> (r: bool)
    ensures
        r == seq_starts_with(s@, prefix@),
{
    let h = str_chars(s);
    let n = str_chars(prefix);
    let r = chars_occur_at(h.as_slice(), n.as_slice(), 0);
    assert(n@.len() <= h@.len() ==> h@.subrange(0, n@.len() as int) =~= h@.take(n@.len() as int));
    r
}

/// Decimal text of a natural number.
pub open spec fn nat_digits(v: nat) -> Seq<char>
    decreases v,
{
    if v < 10 {
        seq![(v + 48) as char]
    } else {
        nat_digits(v / 10).push(((v % 10) + 48) as char)
    }
}

/// Decimal text of an integer, as `i64::to_string` writes it.
pub open spec fn int_text(v: int) -> Seq<char> {
    if v < 0 {
        seq!['-'] + nat_digits((-v) as nat)
    } else {
        nat_digits(v as nat)
    }
}

fn digits_of(v: u64) -> (r: Vec<char>)
    ensures
        r@ == nat_digits(v as nat),
    decreases v,
{
    if v < 10 {
        let mut r = Vec::new();
        r.push(char_from_ascii((v + 48) as u32));
        r
    } else {
        let mut r = digits_of(v / 10);
        r.push(char_from_ascii(((v % 10) + 48) as u32));
        r
    }
}

/// `i64::to_string`.
pub fn int_to_text(v: i64) -> (r: String)
    ensures
        r@ == int_text(v as int),
{
    if v < 0 {
        let m: u64 = if v == i64::MIN { 9223372036854775808u64 } else { (-v) as u64 };
        let mut cs = Vec::new();
        cs.push('-');
        let ds = digits_of(m);
        let mut i: usize = 0;
        while i < ds.len()
            invariant
                i <= ds@.len(),
                cs@ == seq!['-'] + ds@.take(i as int),
            decreases ds.len() - i,
        {
            cs.push(ds[i]);
            i = i + 1;
            assert(cs@ =~= seq!['-'] + ds@.take(i as int));
        }
        assert(ds@.take(ds@.len() as int) =~= ds@);
        string_from_chars(cs.as_slice())
    } else {
        let ds = digits_of(v as u64);
        string_from_chars(ds.as_slice())
    }
}

/// `usize::to_string`.
pub fn count_to_text(v: usize) -> (r: String)
    ensures
        r@ == nat_digits(v as nat),
{
    let ds = digits_of(v as u64);
    string_from_chars(ds.as_slice())
}

} // verus!

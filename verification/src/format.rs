use vstd::prelude::*;
use crate::error::OcelError;
use crate::model::OcelFormat;
use crate::text::{
    owned, str_chars, string_from_chars, lower_text, ascii_lower, seq_ends_with, text_ends_with,
    str_eq, char_is_white, is_white, lead_white, trim_start_seq, lemma_lead_white_bound,
};

verus! {

/// The format a file name or format word names, if any.
pub open spec fn hint_format(hint: Seq<char>) -> Option<OcelFormat> {
    let lower = ascii_lower(hint);
    let h = if seq_ends_with(lower, ".gz"@) { lower.take(lower.len() - 3) } else { lower };
    if seq_ends_with(h, ".json"@) || seq_ends_with(h, ".jsonocel"@) || h == "json"@ {
        Some(OcelFormat::Json)
    } else if seq_ends_with(h, ".xml"@) || seq_ends_with(h, ".xmlocel"@) || h == "xml"@ {
        Some(OcelFormat::Xml)
    } else {
        None
    }
}

pub open spec fn hint_view(hint: Option<&str>) -> Option<Seq<char>> {
    match hint {
        Some(h) => Some(h@),
        None => None,
    }
}

/// Format of an input: from the hint when it names one, otherwise from the
/// first non-white-space character.
pub open spec fn detected_format(input: Seq<char>, hint: Option<Seq<char>>) -> Result<OcelFormat, Seq<char>> {
    if hint is Some && hint_format(hint->0) is Some {
        Ok(hint_format(hint->0)->0)
    } else {
        let t = trim_start_seq(input);
        if t.len() == 0 {
            Err("cannot import an empty OCEL file"@)
        } else if t[0] == '{' {
            Ok(OcelFormat::Json)
        } else if t[0] == '<' {
            Ok(OcelFormat::Xml)
        } else {
            Err("could not detect OCEL format; expected JSON or XML input"@)
        }
    }
}

fn format_of_hint(hint: &str) -> (r: Option<OcelFormat>)
    ensures
        r == hint_format(hint@),
{
    let lower = lower_text(hint);
    proof {
        reveal_strlit(".gz");
        reveal_strlit(".json");
        reveal_strlit(".jsonocel");
        reveal_strlit("json");
        reveal_strlit(".xml");
        reveal_strlit(".xmlocel");
        reveal_strlit("xml");
    }
    let h = if text_ends_with(lower.as_str(), ".gz") {
        let cs = str_chars(lower.as_str());
        let mut t: Vec<char> = Vec::new();
        let mut i: usize = 0;
        while i < cs.len() - 3
            invariant
                cs@ == lower@,
                cs@.len() >= 3,
                i <= cs@.len() - 3,
                t@ == cs@.take(i as int),
            decreases cs.len() - 3 - i,
        {
            t.push(cs[i]);
            i = i + 1;
            assert(t@ =~= cs@.take(i as int));
        }
        string_from_chars(t.as_slice())
    } else {
        lower
    };
    if text_ends_with(h.as_str(), ".json") || text_ends_with(h.as_str(), ".jsonocel") || str_eq(h.as_str(), "json") {
        Some(OcelFormat::Json)
    } else if text_ends_with(h.as_str(), ".xml") || text_ends_with(h.as_str(), ".xmlocel") || str_eq(h.as_str(), "xml") {
        Some(OcelFormat::Xml)
    } else {
        None
    }
}

/// Detects JSON or XML from a hint (`"json"`, `"xml"` or a file name) or
/// from the first non-white-space character of the input.
pub fn detect_format(input: &str, hint: Option<&str>) -> (r: Result<OcelFormat, OcelError>)
    ensures
        match r {
            Ok(f) => detected_format(input@, hint_view(hint)) == Ok::<OcelFormat, Seq<char>>(f),
            Err(e) => detected_format(input@, hint_view(hint)) == Err::<OcelFormat, Seq<char>>(e.message@),
        },
{
    if let Some(h) = hint {
        if let Some(f) = format_of_hint(h) {
            return Ok(f);
        }
    }
    let cs = str_chars(input);
    let mut i: usize = 0;
    while i < cs.len() && char_is_white(cs[i])
        invariant
            i <= cs@.len(),
            forall|k: int| 0 <= k < i ==> is_white(#[trigger] cs@[k]),
        decreases cs.len() - i,
    {
        i = i + 1;
    }
    proof {
        lemma_lead_white_bound(cs@);
        // `i` is the number of leading white-space characters.
        let n = lead_white(cs@);
        if (i as int) < n {
            assert(is_white(cs@[i as int]));
        }
        if (i as int) > n {
            assert(is_white(cs@[n as int]));
        }
        assert(i as int == n);
    }
    proof {
        reveal_strlit("cannot import an empty OCEL file");
        reveal_strlit("could not detect OCEL format; expected JSON or XML input");
    }
    if i == cs.len() {
        Err(OcelError::new(owned("cannot import an empty OCEL file")))
    } else if cs[i] == '{' {
        Ok(OcelFormat::Json)
    } else if cs[i] == '<' {
        Ok(OcelFormat::Xml)
    } else {
        Err(OcelError::new(owned("could not detect OCEL format; expected JSON or XML input")))
    }
}

} // verus!

use vstd::prelude::*;

use crate::events::LogEvent;
use crate::json::{compact_json_text, compact_text_of, parse_json, parsed_json, JsonValue};

verus! {

/// The `YYYY-MM-DD hh:mm:ss.mmm` UTC rendering of an epoch millisecond, or
/// nothing when the value lies outside the representable datetime range.
/// Names the result of chrono's timestamp conversion and formatting, a
/// function of the value alone.
pub uninterp spec fn utc_string_of(ms: i64) -> Option<Seq<char>>;

/// Relies on `chrono::DateTime::from_timestamp_millis` and `format`:
/// deterministic in the millisecond value, rendered in UTC.
#[verifier::external_body]
fn utc_millis_string(ms: i64) -> (r: Option<String>)
    ensures
        r is Some <==> utc_string_of(ms) is Some,
        r matches Some(s) ==> utc_string_of(ms) == Some(s@),
{
    chrono::DateTime::<chrono::Utc>::from_timestamp_millis(ms).map(
        |dt| dt.format("%Y-%m-%d %H:%M:%S%.3f").to_string(),
    )
}

/// The dot-separated parts of `s`, scanning at `i` with the current part
/// begun at `start`.
pub open spec fn split_dots_from(s: Seq<char>, i: int, start: int) -> Seq<Seq<char>>
    decreases s.len() - i,
{
    if i < start || start < 0 {
        Seq::empty()
    } else if i >= s.len() {
        seq![s.subrange(start, s.len() as int)]
    } else if s[i] == '.' {
        seq![s.subrange(start, i)] + split_dots_from(s, i + 1, i + 1)
    } else {
        split_dots_from(s, i + 1, start)
    }
}

/// The dot-separated parts of a field path.
pub open spec fn split_dots(s: Seq<char>) -> Seq<Seq<char>> {
    split_dots_from(s, 0, 0)
}

/// The value under a key among an object's fields, first entry winning.
pub open spec fn obj_field(entries: Seq<(String, JsonValue)>, key: Seq<char>) -> Option<JsonValue>
    decreases entries.len(),
{
    if entries.len() == 0 {
        None
    } else if entries[0].0@ == key {
        Some(entries[0].1)
    } else {
        obj_field(entries.drop_first(), key)
    }
}

/// The value the path parts from `i` on lead to: each part steps into an
/// object field; a missing field, or a step into anything but an object,
/// leads nowhere.
pub open spec fn walk_path(v: JsonValue, parts: Seq<Seq<char>>, i: int) -> Option<JsonValue>
    decreases parts.len() - i,
{
    if i < 0 || i >= parts.len() {
        Some(v)
    } else {
        match v {
            JsonValue::Obj(entries) => match obj_field(entries@, parts[i]) {
                Some(next) => walk_path(next, parts, i + 1),
                None => None,
            },
            _ => None,
        }
    }
}

/// What looking a dotted field up in a structured text yields: the text must
/// parse, the path must lead to a value, and that value renders bare when it
/// is a string and compactly otherwise.
pub open spec fn json_field_spec(json: Seq<char>, field: Seq<char>) -> Option<Seq<char>> {
    match parsed_json(json) {
        Some(v) => match walk_path(v, split_dots(field), 0) {
            Some(JsonValue::Str(s)) => Some(s@),
            Some(other) => Some(compact_text_of(other)),
            None => None,
        },
        None => None,
    }
}

fn split_field(field: &str) -> (r: Vec<String>)
    ensures
        r@.map_values(|p: String| p@) == split_dots(field@),
{
    let n = field.unicode_len();
    let mut parts: Vec<String> = Vec::new();
    let mut start: usize = 0;
    let mut i: usize = 0;
    proof {
        assert(parts@.map_values(|p: String| p@) =~= Seq::<Seq<char>>::empty());
    }
    while i < n
        invariant
            n == field@.len(),
            start <= i <= n,
            parts@.map_values(|p: String| p@) + split_dots_from(field@, i as int, start as int)
                == split_dots(field@),
        decreases n - i,
    {
        if field.get_char(i) == '.' {
            let ghost pv = parts@.map_values(|p: String| p@);
            let part = field.substring_char(start, i).to_owned();
            parts.push(part);
            proof {
                assert(parts@.map_values(|p: String| p@) =~= pv.push(
                    field@.subrange(start as int, i as int),
                ));
                assert(pv.push(field@.subrange(start as int, i as int)) + split_dots_from(
                    field@,
                    i + 1,
                    i + 1,
                ) =~= pv + split_dots_from(field@, i as int, start as int));
            }
            start = i + 1;
        }
        i = i + 1;
    }
    let ghost pv = parts@.map_values(|p: String| p@);
    let last = field.substring_char(start, n).to_owned();
    parts.push(last);
    proof {
        assert(parts@.map_values(|p: String| p@) =~= pv.push(
            field@.subrange(start as int, n as int),
        ));
        assert(pv.push(field@.subrange(start as int, n as int)) =~= pv + split_dots_from(
            field@,
            n as int,
            start as int,
        ));
    }
    parts
}

/// Looks a dotted field up in a structured text and renders what it leads
/// to: `None` when the text does not parse or the path leads nowhere.
pub fn format_json_field(json_str: &str, field: &str) -> (r: Option<String>)
    ensures
        match r {
            Some(v) => json_field_spec(json_str@, field@) == Some(v@),
            None => json_field_spec(json_str@, field@) is None,
        },
{
    let parsed = parse_json(json_str);
    let ghost parsed_g = parsed;
    let value = match parsed {
        Some(v) => v,
        None => {
            return None;
        },
    };
    proof {
        assert(parsed_g == Some(value));
        assert(parsed_json(json_str@) == Some(value));
    }
    let parts = split_field(field);
    let ghost parts_v = split_dots(field@);
    let n = parts.len();
    let mut current: &JsonValue = &value;
    let mut i: usize = 0;
    while i < n
        invariant
            n == parts@.len(),
            parsed_json(json_str@) == Some(value),
            parts_v == split_dots(field@),
            parts@.map_values(|p: String| p@) == parts_v,
            i <= n,
            walk_path(value, parts_v, 0) == walk_path(*current, parts_v, i as int),
        decreases n - i,
    {
        proof {
            assert(parts@[i as int]@ == parts_v[i as int]);
        }
        match current {
            JsonValue::Obj(entries) => {
                let m = entries.len();
                let mut k: usize = 0;
                let part = &parts[i];
                proof {
                    assert((*current) is Obj && current->Obj_0 == *entries);
                    assert(part@ == parts_v[i as int]);
                    assert(entries@.skip(0) =~= entries@);
                }
                loop
                    invariant
                        m == entries@.len(),
                        k <= m,
                        obj_field(entries@, part@) == obj_field(entries@.skip(k as int), part@),
                    ensures
                        k <= m,
                        k < m ==> obj_field(entries@, part@) == Some(entries@[k as int].1),
                        k == m ==> obj_field(entries@, part@) is None,
                    decreases m - k,
                {
                    if k == m {
                        proof {
                            assert(entries@.skip(k as int).len() == 0);
                        }
                        break ;
                    }
                    proof {
                        assert(entries@.skip(k as int)[0] == entries@[k as int]);
                    }
                    if crate::text::str_compare(entries[k].0.as_str(), part.as_str()) == 0 {
                        break ;
                    }
                    proof {
                        crate::text::lemma_lex_lt_total(entries@[k as int].0@, part@);
                        crate::text::lemma_lex_lt_total(part@, entries@[k as int].0@);
                        assert(entries@.skip(k as int).drop_first() =~= entries@.skip(k + 1));
                    }
                    k = k + 1;
                }
                if k == m {
                    proof {
                        assert(walk_path(*current, parts_v, i as int) is None);
                        assert(json_field_spec(json_str@, field@) is None);
                    }
                    return None;
                }
                current = &entries[k].1;
            },
            _ => {
                proof {
                    assert(walk_path(*current, parts_v, i as int) is None);
                    assert(json_field_spec(json_str@, field@) is None);
                }
                return None;
            },
        }
        i = i + 1;
    }
    match current {
        JsonValue::Str(s) => Some(s.clone()),
        _ => Some(compact_json_text(current)),
    }
}

/// The timestamp text a rendered line carries: the UTC rendering of the
/// event's timestamp, or the unknown-time marker.
pub open spec fn line_timestamp(ts: Option<i64>) -> Seq<char> {
    match ts {
        Some(ms) => match utc_string_of(ms) {
            Some(s) => s,
            None => "Unknown time"@,
        },
        None => "Unknown time"@,
    }
}

/// The body a rendered line carries: the message normalized through the
/// structured parser when it parses, the raw message otherwise.
pub open spec fn line_body(msg: Seq<char>) -> Seq<char> {
    match parsed_json(msg) {
        Some(v) => compact_text_of(v),
        None => msg,
    }
}

/// The rendered line of an event that carries a message:
/// `[timestamp] [stream] body`.
pub open spec fn rendered_line(e: LogEvent) -> Option<Seq<char>> {
    match e.message {
        Some(msg) => Some(
            seq!['['] + line_timestamp(e.timestamp) + seq![']', ' ', '['] + (match e.stream_id {
                Some(s) => s@,
                None => Seq::<char>::empty(),
            }) + seq![']', ' '] + line_body(msg@),
        ),
        None => None,
    }
}

/// Renders one event as a `[timestamp] [stream] body` line for the column
/// analyzer; an event without a message yields nothing.
pub fn build_log_line(e: &LogEvent) -> (r: Option<String>)
    ensures
        match r {
            Some(line) => rendered_line(*e) == Some(line@),
            None => rendered_line(*e) is None && e.message is None,
        },
{
    let msg = match &e.message {
        Some(m) => m,
        None => {
            return None;
        },
    };
    let ts_text = match e.timestamp {
        Some(ms) => match utc_millis_string(ms) {
            Some(s) => s,
            None => String::from_str("Unknown time"),
        },
        None => String::from_str("Unknown time"),
    };
    let body = match parse_json(msg.as_str()) {
        Some(v) => compact_json_text(&v),
        None => msg.clone(),
    };
    let mut line = String::new();
    proof {
        reveal_strlit("[");
        reveal_strlit("] [");
        reveal_strlit("] ");
    }
    line.append("[");
    line.append(ts_text.as_str());
    line.append("] [");
    match &e.stream_id {
        Some(s) => line.append(s.as_str()),
        None => (),
    }
    line.append("] ");
    line.append(body.as_str());
    proof {
        assert(line@ =~= rendered_line(*e)->0);
    }
    Some(line)
}

} // verus!

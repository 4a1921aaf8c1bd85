//! Serialization and parsing of JSON values, with a proved round trip:
//! parsing a printed well-formed value yields the value back.
//!
//! The printer emits compact JSON.  The parser is a recursive-descent
//! reader over character sequences; it tolerates whitespace between
//! tokens.  A companion filter strips line and block comments outside
//! string literals, so documents in the commented dialect can be read.

use vstd::prelude::*;

use crate::json::{JsonData, JsonValue, is_num_char, views_of, entry_views_of};
use crate::json::{lemma_views_of, lemma_entry_views_of};

verus! {

/// A document that could not be read.
#[derive(Debug)]
pub enum ParseError {
    Malformed,
}

// ---------------------------------------------------------------------
// Printer specification
// ---------------------------------------------------------------------

/// The printed form of one string character.
pub open spec fn escape_char(c: char) -> Seq<char> {
    if c == '"' {
        seq!['\\', '"']
    } else if c == '\\' {
        seq!['\\', '\\']
    } else if c == '\n' {
        seq!['\\', 'n']
    } else if c == '\t' {
        seq!['\\', 't']
    } else if c == '\r' {
        seq!['\\', 'r']
    } else {
        seq![c]
    }
}

/// The printed form of string content.
pub open spec fn escape(s: Seq<char>) -> Seq<char>
    decreases s.len(),
{
    if s.len() == 0 {
        Seq::empty()
    } else {
        escape_char(s[0]) + escape(s.skip(1))
    }
}

/// The printed form of a string literal, quotes included.
pub open spec fn print_string(s: Seq<char>) -> Seq<char> {
    seq!['"'] + escape(s) + seq!['"']
}

/// The printed form of a JSON value.
pub open spec fn print_json(d: JsonData) -> Seq<char>
    decreases d,
{
    match d {
        JsonData::Null => seq!['n', 'u', 'l', 'l'],
        JsonData::Bool(b) => if b {
            seq!['t', 'r', 'u', 'e']
        } else {
            seq!['f', 'a', 'l', 's', 'e']
        },
        JsonData::Num(t) => t,
        JsonData::Str(s) => print_string(s),
        JsonData::Arr(items) => seq!['['] + print_items(items) + seq![']'],
        JsonData::Obj(entries) => seq!['{'] + print_entries(entries) + seq!['}'],
    }
}

/// The printed forms of array elements, comma separated.
pub open spec fn print_items(items: Seq<JsonData>) -> Seq<char>
    decreases items,
{
    if items.len() == 0 {
        Seq::empty()
    } else if items.len() == 1 {
        print_json(items[0])
    } else {
        print_json(items[0]) + seq![','] + print_items(items.subrange(1, items.len() as int))
    }
}

/// The printed forms of object entries, comma separated.
pub open spec fn print_entries(entries: Seq<(Seq<char>, JsonData)>) -> Seq<char>
    decreases entries,
{
    if entries.len() == 0 {
        Seq::empty()
    } else if entries.len() == 1 {
        print_entry(entries[0])
    } else {
        print_entry(entries[0]) + seq![','] + print_entries(
            entries.subrange(1, entries.len() as int),
        )
    }
}

/// The printed form of one object entry.
pub open spec fn print_entry(entry: (Seq<char>, JsonData)) -> Seq<char>
    decreases entry,
{
    print_string(entry.0) + seq![':'] + print_json(entry.1)
}

// ---------------------------------------------------------------------
// Parser specification
// ---------------------------------------------------------------------

/// True when `c` is JSON inter-token whitespace.
pub open spec fn is_json_ws(c: char) -> bool {
    c == ' ' || c == '\t' || c == '\n' || c == '\r'
}

/// `s` with leading whitespace removed.
pub open spec fn skip_ws(s: Seq<char>) -> Seq<char>
    decreases s.len(),
{
    if s.len() > 0 && is_json_ws(s[0]) {
        skip_ws(s.skip(1))
    } else {
        s
    }
}

/// The character an escape code stands for, if the code is known.
pub open spec fn unescape_char(c: char) -> Option<char> {
    if c == '"' {
        Some('"')
    } else if c == '\\' {
        Some('\\')
    } else if c == '/' {
        Some('/')
    } else if c == 'n' {
        Some('\n')
    } else if c == 't' {
        Some('\t')
    } else if c == 'r' {
        Some('\r')
    } else if c == 'b' {
        Some('\u{8}')
    } else if c == 'f' {
        Some('\u{c}')
    } else {
        None
    }
}

/// Parse string content after the opening quote; returns the content and
/// what follows the closing quote.
pub open spec fn parse_string(s: Seq<char>) -> Option<(Seq<char>, Seq<char>)>
    decreases s.len(),
{
    if s.len() == 0 {
        None
    } else if s[0] == '"' {
        Some((Seq::empty(), s.skip(1)))
    } else if s[0] == '\\' {
        if s.len() < 2 {
            None
        } else {
            match unescape_char(s[1]) {
                Some(c) => match parse_string(s.skip(2)) {
                    Some(r) => Some((seq![c] + r.0, r.1)),
                    None => None,
                },
                None => None,
            }
        }
    } else {
        match parse_string(s.skip(1)) {
            Some(r) => Some((seq![s[0]] + r.0, r.1)),
            None => None,
        }
    }
}

/// The length of the leading run of numeral characters.
pub open spec fn numeral_len(s: Seq<char>) -> int
    decreases s.len(),
{
    if s.len() > 0 && is_num_char(s[0]) {
        1 + numeral_len(s.skip(1))
    } else {
        0
    }
}

/// Parse one JSON value at the head of `s` (no leading whitespace);
/// returns the value and the unconsumed remainder.
pub open spec fn parse_value(s: Seq<char>) -> Option<(JsonData, Seq<char>)>
    decreases s.len(), 0int,
{
    if s.len() == 0 {
        None
    } else if s[0] == 'n' {
        if crate::text::starts_with(s, seq!['n', 'u', 'l', 'l']) {
            Some((JsonData::Null, s.skip(4)))
        } else {
            None
        }
    } else if s[0] == 't' {
        if crate::text::starts_with(s, seq!['t', 'r', 'u', 'e']) {
            Some((JsonData::Bool(true), s.skip(4)))
        } else {
            None
        }
    } else if s[0] == 'f' {
        if crate::text::starts_with(s, seq!['f', 'a', 'l', 's', 'e']) {
            Some((JsonData::Bool(false), s.skip(5)))
        } else {
            None
        }
    } else if s[0] == '"' {
        match parse_string(s.skip(1)) {
            Some(r) => Some((JsonData::Str(r.0), r.1)),
            None => None,
        }
    } else if s[0] == '[' {
        let r = skip_ws(s.skip(1));
        if r.len() > 0 && r[0] == ']' {
            Some((JsonData::Arr(Seq::empty()), r.skip(1)))
        } else if r.len() < s.len() {
            match parse_items(r) {
                Some(p) => Some((JsonData::Arr(p.0), p.1)),
                None => None,
            }
        } else {
            None
        }
    } else if s[0] == '{' {
        let r = skip_ws(s.skip(1));
        if r.len() > 0 && r[0] == '}' {
            Some((JsonData::Obj(Seq::empty()), r.skip(1)))
        } else if r.len() < s.len() {
            match parse_members(r) {
                Some(p) => Some((JsonData::Obj(p.0), p.1)),
                None => None,
            }
        } else {
            None
        }
    } else if ('0' <= s[0] && s[0] <= '9') || s[0] == '-' {
        let n = numeral_len(s);
        Some((JsonData::Num(s.take(n)), s.skip(n)))
    } else {
        None
    }
}

/// Parse one or more comma-separated values up to and including the
/// closing bracket.
pub open spec fn parse_items(s: Seq<char>) -> Option<(Seq<JsonData>, Seq<char>)>
    decreases s.len(), 1int,
{
    match parse_value(s) {
        None => None,
        Some(p) => {
            let r = skip_ws(p.1);
            if r.len() > 0 && r[0] == ']' {
                Some((seq![p.0], r.skip(1)))
            } else if r.len() > 0 && r[0] == ',' {
                let r2 = skip_ws(r.skip(1));
                if r2.len() < s.len() {
                    match parse_items(r2) {
                        Some(q) => Some((seq![p.0] + q.0, q.1)),
                        None => None,
                    }
                } else {
                    None
                }
            } else {
                None
            }
        },
    }
}

/// Parse one or more comma-separated `"key": value` members up to and
/// including the closing brace.
pub open spec fn parse_members(s: Seq<char>) -> Option<(Seq<(Seq<char>, JsonData)>, Seq<char>)>
    decreases s.len(), 1int,
{
    if s.len() == 0 || s[0] != '"' {
        None
    } else {
        match parse_string(s.skip(1)) {
            None => None,
            Some(k) => {
                let r = skip_ws(k.1);
                if r.len() == 0 || r[0] != ':' {
                    None
                } else {
                    let r2 = skip_ws(r.skip(1));
                    if r2.len() < s.len() {
                        match parse_value(r2) {
                            None => None,
                            Some(p) => {
                                let r3 = skip_ws(p.1);
                                if r3.len() > 0 && r3[0] == '}' {
                                    Some((seq![(k.0, p.0)], r3.skip(1)))
                                } else if r3.len() > 0 && r3[0] == ',' {
                                    let r4 = skip_ws(r3.skip(1));
                                    if r4.len() < s.len() {
                                        match parse_members(r4) {
                                            Some(q) => Some((seq![(k.0, p.0)] + q.0, q.1)),
                                            None => None,
                                        }
                                    } else {
                                        None
                                    }
                                } else {
                                    None
                                }
                            },
                        }
                    } else {
                        None
                    }
                }
            },
        }
    }
}

/// Parse a whole document: one value, surrounded only by whitespace.
pub open spec fn parse_json(s: Seq<char>) -> Option<JsonData> {
    match parse_value(skip_ws(s)) {
        Some(p) => if skip_ws(p.1).len() == 0 {
            Some(p.0)
        } else {
            None
        },
        None => None,
    }
}

} // verus!

verus! {

// ---------------------------------------------------------------------
// Round trip: parsing a printed value yields the value back
// ---------------------------------------------------------------------

/// True when `c` can begin a printed JSON value.
pub open spec fn is_value_start(c: char) -> bool {
    c == 'n' || c == 't' || c == 'f' || c == '"' || c == '[' || c == '{' || ('0' <= c && c
        <= '9') || c == '-'
}

/// A printed well-formed value is nonempty and begins with a value-start
/// character.
pub proof fn lemma_print_head(d: JsonData)
    requires
        crate::json::wf_json(d),
    ensures
        print_json(d).len() > 0,
        is_value_start(print_json(d)[0]),
    decreases d,
{
    match d {
        JsonData::Num(t) => {
            assert(print_json(d)[0] == t[0]);
        },
        _ => {},
    }
}

/// Parsing the escaped form of `content` followed by a closing quote
/// recovers `content` and leaves `tail`.
pub proof fn lemma_escape_parse(content: Seq<char>, tail: Seq<char>)
    ensures
        parse_string(escape(content) + seq!['"'] + tail) == Some((content, tail)),
    decreases content.len(),
{
    let s = escape(content) + seq!['"'] + tail;
    if content.len() == 0 {
        assert(escape(content) == Seq::<char>::empty());
        assert(s =~= seq!['"'] + tail);
        assert(s[0] == '"');
        assert(s.skip(1) =~= tail);
        assert(parse_string(s) == Some((Seq::<char>::empty(), tail)));
        assert(content =~= Seq::<char>::empty());
    } else {
        let c = content[0];
        let ec = escape_char(c);
        assert(escape(content) == ec + escape(content.skip(1)));
        if c == '"' || c == '\\' || c == '\n' || c == '\t' || c == '\r' {
            assert(ec.len() == 2 && ec[0] == '\\');
            assert(s[0] == '\\');
            assert(s.len() >= 2);
            assert(s[1] == ec[1]);
            assert(unescape_char(ec[1]) == Some(c));
            assert(s.skip(2) =~= escape(content.skip(1)) + seq!['"'] + tail);
            lemma_escape_parse(content.skip(1), tail);
            assert(seq![c] + content.skip(1) =~= content);
        } else {
            assert(ec =~= seq![c]);
            assert(s[0] == c);
            assert(s[0] != '"' && s[0] != '\\');
            assert(s.skip(1) =~= escape(content.skip(1)) + seq!['"'] + tail);
            lemma_escape_parse(content.skip(1), tail);
            assert(seq![c] + content.skip(1) =~= content);
        }
    }
}

/// The leading numeral run of a numeral followed by a non-numeral
/// character is exactly the numeral.
pub proof fn lemma_numeral_len(t: Seq<char>, rest: Seq<char>)
    requires
        forall|i: int| 0 <= i < t.len() ==> is_num_char(#[trigger] t[i]),
        rest.len() == 0 || !is_num_char(rest[0]),
    ensures
        numeral_len(t + rest) == t.len(),
    decreases t.len(),
{
    let s = t + rest;
    if t.len() == 0 {
        assert(s =~= rest);
    } else {
        assert(s[0] == t[0]);
        assert(s.skip(1) =~= t.skip(1) + rest);
        lemma_numeral_len(t.skip(1), rest);
    }
}

/// Parsing a printed well-formed value followed by `rest` (which must not
/// begin with a numeral character) yields the value and `rest`.
pub proof fn lemma_round_trip_value(d: JsonData, rest: Seq<char>)
    requires
        crate::json::wf_json(d),
        rest.len() == 0 || !is_num_char(rest[0]),
    ensures
        parse_value(print_json(d) + rest) == Some((d, rest)),
    decreases d, 0int,
{
    let s = print_json(d) + rest;
    match d {
        JsonData::Null => {
            let kw = seq!['n', 'u', 'l', 'l'];
            assert(s[0] == 'n');
            assert(s.take(4) =~= kw);
            assert(crate::text::starts_with(s, kw));
            assert(s.skip(4) =~= rest);
        },
        JsonData::Bool(b) => {
            if b {
                let kw = seq!['t', 'r', 'u', 'e'];
                assert(s[0] == 't');
                assert(s.take(4) =~= kw);
                assert(crate::text::starts_with(s, kw));
                assert(s.skip(4) =~= rest);
            } else {
                let kw = seq!['f', 'a', 'l', 's', 'e'];
                assert(s[0] == 'f');
                assert(s.take(5) =~= kw);
                assert(crate::text::starts_with(s, kw));
                assert(s.skip(5) =~= rest);
            }
        },
        JsonData::Num(t) => {
            assert(s[0] == t[0]);
            lemma_numeral_len(t, rest);
            assert(s.take(t.len() as int) =~= t);
            assert(s.skip(t.len() as int) =~= rest);
        },
        JsonData::Str(content) => {
            assert(s[0] == '"');
            assert(s.skip(1) =~= escape(content) + seq!['"'] + rest);
            lemma_escape_parse(content, rest);
        },
        JsonData::Arr(items) => {
            assert(s[0] == '[');
            if items.len() == 0 {
                assert(print_items(items) == Seq::<char>::empty());
                assert(s.skip(1) =~= seq![']'] + rest);
                let r = skip_ws(s.skip(1));
                assert(r == s.skip(1));
                assert(r[0] == ']');
                assert(r.skip(1) =~= rest);
                assert(items =~= Seq::<JsonData>::empty());
            } else {
                assert(crate::json::wf_json(items[0]));
                lemma_print_head(items[0]);
                assert(print_items(items)[0] == print_json(items[0])[0]);
                assert(s.skip(1) =~= print_items(items) + seq![']'] + rest);
                let r = skip_ws(s.skip(1));
                assert(!is_json_ws(s.skip(1)[0]));
                assert(r == s.skip(1));
                assert(r[0] != ']');
                assert(r.len() < s.len());
                lemma_round_trip_items(items, rest);
            }
        },
        JsonData::Obj(entries) => {
            assert(s[0] == '{');
            if entries.len() == 0 {
                assert(print_entries(entries) == Seq::<char>::empty());
                assert(s.skip(1) =~= seq!['}'] + rest);
                let r = skip_ws(s.skip(1));
                assert(r == s.skip(1));
                assert(r[0] == '}');
                assert(r.skip(1) =~= rest);
                assert(entries =~= Seq::<(Seq<char>, JsonData)>::empty());
            } else {
                assert(print_entries(entries)[0] == print_entry(entries[0])[0]);
                assert(print_entry(entries[0])[0] == '"');
                assert(s.skip(1) =~= print_entries(entries) + seq!['}'] + rest);
                let r = skip_ws(s.skip(1));
                assert(!is_json_ws(s.skip(1)[0]));
                assert(r == s.skip(1));
                assert(r[0] != '}');
                assert(r.len() < s.len());
                lemma_round_trip_members(entries, rest);
            }
        },
    }
}

/// Parsing printed array elements followed by the closing bracket yields
/// the elements and the text after the bracket.
#[verifier::rlimit(100)]
#[verifier::spinoff_prover]
pub proof fn lemma_round_trip_items(items: Seq<JsonData>, rest: Seq<char>)
    requires
        items.len() >= 1,
        forall|i: int| 0 <= i < items.len() ==> crate::json::wf_json(#[trigger] items[i]),
    ensures
        parse_items(print_items(items) + seq![']'] + rest) == Some((items, rest)),
    decreases items,
{
    let s = print_items(items) + seq![']'] + rest;
    if items.len() == 1 {
        assert(print_items(items) == print_json(items[0]));
        assert(s =~= print_json(items[0]) + (seq![']'] + rest));
        lemma_round_trip_value(items[0], seq![']'] + rest);
        let after = seq![']'] + rest;
        assert(skip_ws(after) == after);
        assert(after[0] == ']');
        assert(after.skip(1) =~= rest);
        assert(seq![items[0]] =~= items);
    } else {
        let tail = items.subrange(1, items.len() as int);
        assert(print_items(items) == print_json(items[0]) + seq![','] + print_items(tail));
        let after = seq![','] + print_items(tail) + seq![']'] + rest;
        assert(s =~= print_json(items[0]) + after);
        lemma_round_trip_value(items[0], after);
        assert(skip_ws(after) == after);
        assert(after[0] == ',');
        assert(after[0] != ']');
        let r2arg = after.skip(1);
        assert(r2arg =~= print_items(tail) + seq![']'] + rest);
        assert(crate::json::wf_json(tail[0]));
        lemma_print_head(tail[0]);
        assert(print_items(tail)[0] == print_json(tail[0])[0]);
        assert(!is_json_ws(r2arg[0]));
        assert(skip_ws(r2arg) == r2arg);
        lemma_print_head(items[0]);
        assert(r2arg.len() < s.len());
        lemma_round_trip_items(tail, rest);
        assert(seq![items[0]] + tail =~= items);
    }
}

/// Parsing printed object members followed by the closing brace yields
/// the members and the text after the brace.
#[verifier::rlimit(100)]
#[verifier::spinoff_prover]
pub proof fn lemma_round_trip_members(entries: Seq<(Seq<char>, JsonData)>, rest: Seq<char>)
    requires
        entries.len() >= 1,
        forall|i: int|
            0 <= i < entries.len() ==> crate::json::wf_json((#[trigger] entries[i]).1),
    ensures
        parse_members(print_entries(entries) + seq!['}'] + rest) == Some((entries, rest)),
    decreases entries,
{
    let s = print_entries(entries) + seq!['}'] + rest;
    let k = entries[0].0;
    let v = entries[0].1;
    if entries.len() == 1 {
        assert(print_entries(entries) == print_entry(entries[0]));
        assert(print_entry(entries[0]) == print_string(k) + seq![':'] + print_json(v));
        assert(s[0] == '"');
        let afterkey = seq![':'] + print_json(v) + seq!['}'] + rest;
        assert(s.skip(1) =~= escape(k) + seq!['"'] + afterkey);
        lemma_escape_parse(k, afterkey);
        assert(skip_ws(afterkey) == afterkey);
        assert(afterkey[0] == ':');
        let r2arg = afterkey.skip(1);
        assert(r2arg =~= print_json(v) + (seq!['}'] + rest));
        assert(crate::json::wf_json(v));
        lemma_print_head(v);
        assert(!is_json_ws(r2arg[0]));
        assert(skip_ws(r2arg) == r2arg);
        assert(r2arg.len() < s.len());
        lemma_round_trip_value(v, seq!['}'] + rest);
        let after = seq!['}'] + rest;
        assert(skip_ws(after) == after);
        assert(after[0] == '}');
        assert(after.skip(1) =~= rest);
        assert(seq![(k, v)] =~= entries);
    } else {
        let tail = entries.subrange(1, entries.len() as int);
        assert(print_entries(entries) == print_entry(entries[0]) + seq![','] + print_entries(
            tail,
        ));
        assert(print_entry(entries[0]) == print_string(k) + seq![':'] + print_json(v));
        assert(s[0] == '"');
        let aftervalue = seq![','] + print_entries(tail) + seq!['}'] + rest;
        let afterkey = seq![':'] + print_json(v) + aftervalue;
        assert(s.skip(1) =~= escape(k) + seq!['"'] + afterkey);
        lemma_escape_parse(k, afterkey);
        assert(skip_ws(afterkey) == afterkey);
        assert(afterkey[0] == ':');
        let r2arg = afterkey.skip(1);
        assert(r2arg =~= print_json(v) + aftervalue);
        assert(crate::json::wf_json(v));
        lemma_print_head(v);
        assert(!is_json_ws(r2arg[0]));
        assert(skip_ws(r2arg) == r2arg);
        assert(r2arg.len() < s.len());
        lemma_round_trip_value(v, aftervalue);
        assert(skip_ws(aftervalue) == aftervalue);
        assert(aftervalue[0] == ',');
        assert(aftervalue[0] != '}');
        let r4arg = aftervalue.skip(1);
        assert(r4arg =~= print_entries(tail) + seq!['}'] + rest);
        assert(print_entries(tail)[0] == print_entry(tail[0])[0]);
        assert(print_entry(tail[0])[0] == '"');
        assert(r4arg.len() < s.len());
        lemma_round_trip_members(tail, rest);
        assert(seq![(k, v)] + tail =~= entries);
    }
}

/// Law: a printed well-formed value parses back to itself.
pub proof fn lemma_json_round_trip(d: JsonData)
    requires
        crate::json::wf_json(d),
    ensures
        parse_json(print_json(d)) == Some(d),
{
    lemma_print_head(d);
    assert(skip_ws(print_json(d)) == print_json(d));
    assert(print_json(d) + Seq::<char>::empty() =~= print_json(d));
    lemma_round_trip_value(d, Seq::<char>::empty());
    assert(parse_value(print_json(d)) == Some((d, Seq::<char>::empty())));
    assert(skip_ws(Seq::<char>::empty()).len() == 0);
}

} // verus!

verus! {

// ---------------------------------------------------------------------
// Executable printer
// ---------------------------------------------------------------------

/// Escaping distributes over appending one character.
pub proof fn lemma_escape_push(s: Seq<char>, c: char)
    ensures
        escape(s.push(c)) == escape(s) + escape_char(c),
    decreases s.len(),
{
    if s.len() == 0 {
        assert(s.push(c)[0] == c);
        assert(s.push(c).skip(1) =~= Seq::<char>::empty());
        assert(escape(Seq::<char>::empty()) == Seq::<char>::empty());
        assert(escape(s.push(c)) == escape_char(c) + escape(Seq::<char>::empty()));
        assert(escape(s.push(c)) =~= escape(s) + escape_char(c));
    } else {
        assert(s.push(c)[0] == s[0]);
        assert(s.push(c).skip(1) =~= s.skip(1).push(c));
        lemma_escape_push(s.skip(1), c);
        assert(escape(s.push(c)) =~= escape(s) + escape_char(c));
    }
}

/// Printing array elements distributes over appending one element.
pub proof fn lemma_print_items_push(s: Seq<JsonData>, x: JsonData)
    ensures
        print_items(s.push(x)) == if s.len() == 0 {
            print_json(x)
        } else {
            print_items(s) + seq![','] + print_json(x)
        },
    decreases s.len(),
{
    let sp = s.push(x);
    if s.len() == 0 {
        assert(sp[0] == x);
    } else if s.len() == 1 {
        assert(sp[0] == s[0]);
        assert(sp.subrange(1, sp.len() as int) =~= seq![x]);
        assert(print_items(seq![x]) == print_json(x));
        assert(print_items(sp) =~= print_items(s) + seq![','] + print_json(x));
    } else {
        let t = s.subrange(1, s.len() as int);
        assert(sp[0] == s[0]);
        assert(sp.subrange(1, sp.len() as int) =~= t.push(x));
        lemma_print_items_push(t, x);
        assert(print_items(sp) =~= print_items(s) + seq![','] + print_json(x));
    }
}

/// Printing object entries distributes over appending one entry.
pub proof fn lemma_print_entries_push(s: Seq<(Seq<char>, JsonData)>, x: (Seq<char>, JsonData))
    ensures
        print_entries(s.push(x)) == if s.len() == 0 {
            print_entry(x)
        } else {
            print_entries(s) + seq![','] + print_entry(x)
        },
    decreases s.len(),
{
    let sp = s.push(x);
    if s.len() == 0 {
        assert(sp[0] == x);
    } else if s.len() == 1 {
        assert(sp[0] == s[0]);
        assert(sp.subrange(1, sp.len() as int) =~= seq![x]);
        assert(print_entries(seq![x]) == print_entry(x));
        assert(print_entries(sp) =~= print_entries(s) + seq![','] + print_entry(x));
    } else {
        let t = s.subrange(1, s.len() as int);
        assert(sp[0] == s[0]);
        assert(sp.subrange(1, sp.len() as int) =~= t.push(x));
        lemma_print_entries_push(t, x);
        assert(print_entries(sp) =~= print_entries(s) + seq![','] + print_entry(x));
    }
}

/// Append the printed form of a string literal to `out`.
pub fn write_string(t: &Vec<char>, out: &mut Vec<char>)
    ensures
        final(out)@ == old(out)@ + print_string(t@),
{
    out.push('"');
    let mut i: usize = 0;
    while i < t.len()
        invariant
            i <= t.len(),
            out@ == old(out)@ + seq!['"'] + escape(t@.take(i as int)),
        decreases t.len() - i,
    {
        let c = t[i];
        if c == '"' {
            out.push('\\');
            out.push('"');
        } else if c == '\\' {
            out.push('\\');
            out.push('\\');
        } else if c == '\n' {
            out.push('\\');
            out.push('n');
        } else if c == '\t' {
            out.push('\\');
            out.push('t');
        } else if c == '\r' {
            out.push('\\');
            out.push('r');
        } else {
            out.push(c);
        }
        proof {
            lemma_escape_push(t@.take(i as int), c);
            assert(t@.take(i + 1) =~= t@.take(i as int).push(c));
            assert(out@ =~= old(out)@ + seq!['"'] + escape(t@.take(i + 1)));
        }
        i += 1;
    }
    proof {
        assert(t@.take(t@.len() as int) =~= t@);
    }
    out.push('"');
    proof {
        assert(out@ =~= old(out)@ + print_string(t@));
    }
}

/// Append the printed form of `v` to `out`.
pub fn write_json(v: &JsonValue, out: &mut Vec<char>)
    ensures
        final(out)@ == old(out)@ + print_json(v@),
    decreases v,
{
    broadcast use lemma_views_of, lemma_entry_views_of;

    match v {
        JsonValue::Null => {
            out.push('n');
            out.push('u');
            out.push('l');
            out.push('l');
            proof {
                assert(out@ =~= old(out)@ + print_json(v@));
            }
        },
        JsonValue::Bool(b) => {
            if *b {
                out.push('t');
                out.push('r');
                out.push('u');
                out.push('e');
            } else {
                out.push('f');
                out.push('a');
                out.push('l');
                out.push('s');
                out.push('e');
            }
            proof {
                assert(out@ =~= old(out)@ + print_json(v@));
            }
        },
        JsonValue::Num(t) => {
            crate::text::append_text(out, t);
        },
        JsonValue::Str(t) => {
            write_string(t, out);
        },
        JsonValue::Arr(items) => {
            let ghost views = views_of(items@);
            out.push('[');
            let mut i: usize = 0;
            while i < items.len()
                invariant
                    i <= items.len(),
                    *v == JsonValue::Arr(*items),
                    v@ == JsonData::Arr(views),
                    views == views_of(items@),
                    views.len() == items@.len(),
                    forall|j: int| 0 <= j < items@.len() ==> #[trigger] views[j] == items@[j]@,
                    out@ == old(out)@ + seq!['['] + print_items(views.take(i as int)),
                decreases items.len() - i,
            {
                if i > 0 {
                    out.push(',');
                }
                proof {
                    assert(decreases_to!(*v => items@[i as int]));
                }
                write_json(&items[i], out);
                proof {
                    lemma_print_items_push(views.take(i as int), views[i as int]);
                    assert(views.take(i + 1) =~= views.take(i as int).push(views[i as int]));
                    assert(out@ =~= old(out)@ + seq!['['] + print_items(views.take(i + 1)));
                }
                i += 1;
            }
            out.push(']');
            proof {
                assert(views.take(views.len() as int) =~= views);
                assert(out@ =~= old(out)@ + print_json(v@));
            }
        },
        JsonValue::Obj(entries) => {
            let ghost views = entry_views_of(entries@);
            out.push('{');
            let mut i: usize = 0;
            while i < entries.len()
                invariant
                    i <= entries.len(),
                    *v == JsonValue::Obj(*entries),
                    v@ == JsonData::Obj(views),
                    views == entry_views_of(entries@),
                    views.len() == entries@.len(),
                    forall|j: int|
                        0 <= j < entries@.len() ==> #[trigger] views[j] == (
                            entries@[j].0@,
                            entries@[j].1@,
                        ),
                    out@ == old(out)@ + seq!['{'] + print_entries(views.take(i as int)),
                decreases entries.len() - i,
            {
                if i > 0 {
                    out.push(',');
                }
                write_string(&entries[i].0, out);
                out.push(':');
                proof {
                    assert(decreases_to!(*v => entries@[i as int].1));
                }
                write_json(&entries[i].1, out);
                proof {
                    lemma_print_entries_push(views.take(i as int), views[i as int]);
                    assert(views.take(i + 1) =~= views.take(i as int).push(views[i as int]));
                    assert(print_entry(views[i as int]) == print_string(entries@[i as int].0@)
                        + seq![':'] + print_json(entries@[i as int].1@));
                    assert(out@ =~= old(out)@ + seq!['{'] + print_entries(views.take(i + 1)));
                }
                i += 1;
            }
            out.push('}');
            proof {
                assert(views.take(views.len() as int) =~= views);
                assert(out@ =~= old(out)@ + print_json(v@));
            }
        },
    }
}

/// The printed text of `v`.
pub fn to_text(v: &JsonValue) -> (r: Vec<char>)
    ensures
        r@ == print_json(v@),
{
    let mut out: Vec<char> = Vec::new();
    write_json(v, &mut out);
    out
}

} // verus!

verus! {

// ---------------------------------------------------------------------
// Executable parser
// ---------------------------------------------------------------------

/// Advance past inter-token whitespace, starting at `i`.
fn ws_to(t: &Vec<char>, i: usize) -> (j: usize)
    requires
        i <= t.len(),
    ensures
        i <= j <= t.len(),
        t@.skip(j as int) == skip_ws(t@.skip(i as int)),
{
    let mut j: usize = i;
    while j < t.len() && (t[j] == ' ' || t[j] == '\t' || t[j] == '\n' || t[j] == '\r')
        invariant
            i <= j <= t.len(),
            skip_ws(t@.skip(i as int)) == skip_ws(t@.skip(j as int)),
        decreases t.len() - j,
    {
        proof {
            assert(t@.skip(j as int)[0] == t@[j as int]);
            assert(t@.skip(j as int).skip(1) =~= t@.skip(j + 1));
        }
        j += 1;
    }
    proof {
        if j < t.len() {
            assert(t@.skip(j as int)[0] == t@[j as int]);
            assert(!is_json_ws(t@.skip(j as int)[0]));
        } else {
            assert(t@.skip(j as int).len() == 0);
        }
        assert(skip_ws(t@.skip(j as int)) == t@.skip(j as int));
    }
    j
}

/// Parse string content at `i` (just after an opening quote).
fn parse_string_at(t: &Vec<char>, i: usize) -> (r: Result<(Vec<char>, usize), ParseError>)
    requires
        i <= t.len(),
    ensures
        match parse_string(t@.skip(i as int)) {
            Some(p) => {
                &&& r is Ok
                &&& r->Ok_0.0@ == p.0
                &&& i <= r->Ok_0.1 <= t.len()
                &&& t@.skip(r->Ok_0.1 as int) == p.1
            },
            None => r is Err,
        },
{
    let mut acc: Vec<char> = Vec::new();
    let mut j: usize = i;
    while j < t.len()
        invariant
            i <= j <= t.len(),
            match parse_string(t@.skip(j as int)) {
                Some(p) => parse_string(t@.skip(i as int)) == Some((acc@ + p.0, p.1)),
                None => parse_string(t@.skip(i as int)) is None,
            },
        decreases t.len() - j,
    {
        let c = t[j];
        proof {
            assert(t@.skip(j as int)[0] == t@[j as int]);
        }
        if c == '"' {
            proof {
                assert(t@.skip(j as int).skip(1) =~= t@.skip(j + 1));
                assert(acc@ + Seq::<char>::empty() =~= acc@);
            }
            return Ok((acc, j + 1));
        } else if c == '\\' {
            if j + 1 == t.len() {
                proof {
                    assert(t@.skip(j as int).len() == 1);
                }
                return Err(ParseError::Malformed);
            }
            let c2 = t[j + 1];
            proof {
                assert(t@.skip(j as int)[1] == t@[j + 1]);
                assert(t@.skip(j as int).skip(2) =~= t@.skip(j + 2));
            }
            let dec: char;
            if c2 == '"' {
                dec = '"';
            } else if c2 == '\\' {
                dec = '\\';
            } else if c2 == '/' {
                dec = '/';
            } else if c2 == 'n' {
                dec = '\n';
            } else if c2 == 't' {
                dec = '\t';
            } else if c2 == 'r' {
                dec = '\r';
            } else if c2 == 'b' {
                dec = '\u{8}';
            } else if c2 == 'f' {
                dec = '\u{c}';
            } else {
                proof {
                    assert(unescape_char(t@.skip(j as int)[1]) is None);
                }
                return Err(ParseError::Malformed);
            }
            proof {
                assert(unescape_char(t@.skip(j as int)[1]) == Some(dec));
            }
            let ghost oldacc = acc@;
            acc.push(dec);
            proof {
                match parse_string(t@.skip(j + 2)) {
                    Some(p) => {
                        assert(parse_string(t@.skip(j as int)) == Some((seq![dec] + p.0, p.1)));
                        assert(oldacc + (seq![dec] + p.0) =~= acc@ + p.0);
                    },
                    None => {},
                }
            }
            j += 2;
        } else {
            proof {
                assert(t@.skip(j as int).skip(1) =~= t@.skip(j + 1));
            }
            let ghost oldacc = acc@;
            acc.push(c);
            proof {
                match parse_string(t@.skip(j + 1)) {
                    Some(p) => {
                        assert(parse_string(t@.skip(j as int)) == Some((seq![c] + p.0, p.1)));
                        assert(oldacc + (seq![c] + p.0) =~= acc@ + p.0);
                    },
                    None => {},
                }
            }
            j += 1;
        }
    }
    proof {
        assert(t@.skip(j as int).len() == 0);
    }
    Err(ParseError::Malformed)
}

/// Parse one value at `i` (no leading whitespace accepted).
pub fn parse_value_at(t: &Vec<char>, i: usize) -> (r: Result<(JsonValue, usize), ParseError>)
    requires
        i <= t.len(),
    ensures
        match parse_value(t@.skip(i as int)) {
            Some(p) => {
                &&& r is Ok
                &&& r->Ok_0.0@ == p.0
                &&& i <= r->Ok_0.1 <= t.len()
                &&& t@.skip(r->Ok_0.1 as int) == p.1
            },
            None => r is Err,
        },
    decreases t.len() - i, 0int,
{
    broadcast use lemma_views_of, lemma_entry_views_of;

    let ghost s = t@.skip(i as int);
    if i == t.len() {
        proof {
            assert(s.len() == 0);
        }
        return Err(ParseError::Malformed);
    }
    let c = t[i];
    proof {
        assert(s[0] == t@[i as int]);
        assert forall|k: int| 0 <= k < s.len() implies s[k] == t@[i + k] by {}
    }
    if c == 'n' {
        if t.len() - i >= 4 && t[i + 1] == 'u' && t[i + 2] == 'l' && t[i + 3] == 'l' {
            proof {
                assert(s.take(4) =~= seq!['n', 'u', 'l', 'l']);
                assert(s.skip(4) =~= t@.skip(i + 4));
            }
            Ok((JsonValue::Null, i + 4))
        } else {
            proof {
                if crate::text::starts_with(s, seq!['n', 'u', 'l', 'l']) {
                    assert(s.take(4)[1] == t@[i + 1]);
                    assert(s.take(4)[2] == t@[i + 2]);
                    assert(s.take(4)[3] == t@[i + 3]);
                }
            }
            Err(ParseError::Malformed)
        }
    } else if c == 't' {
        if t.len() - i >= 4 && t[i + 1] == 'r' && t[i + 2] == 'u' && t[i + 3] == 'e' {
            proof {
                assert(s.take(4) =~= seq!['t', 'r', 'u', 'e']);
                assert(s.skip(4) =~= t@.skip(i + 4));
            }
            Ok((JsonValue::Bool(true), i + 4))
        } else {
            proof {
                if crate::text::starts_with(s, seq!['t', 'r', 'u', 'e']) {
                    assert(s.take(4)[1] == t@[i + 1]);
                    assert(s.take(4)[2] == t@[i + 2]);
                    assert(s.take(4)[3] == t@[i + 3]);
                }
            }
            Err(ParseError::Malformed)
        }
    } else if c == 'f' {
        if t.len() - i >= 5 && t[i + 1] == 'a' && t[i + 2] == 'l' && t[i + 3] == 's' && t[i + 4]
            == 'e' {
            proof {
                assert(s.take(5) =~= seq!['f', 'a', 'l', 's', 'e']);
                assert(s.skip(5) =~= t@.skip(i + 5));
            }
            Ok((JsonValue::Bool(false), i + 5))
        } else {
            proof {
                if crate::text::starts_with(s, seq!['f', 'a', 'l', 's', 'e']) {
                    assert(s.take(5)[1] == t@[i + 1]);
                    assert(s.take(5)[2] == t@[i + 2]);
                    assert(s.take(5)[3] == t@[i + 3]);
                    assert(s.take(5)[4] == t@[i + 4]);
                }
            }
            Err(ParseError::Malformed)
        }
    } else if c == '"' {
        proof {
            assert(s.skip(1) =~= t@.skip(i + 1));
        }
        match parse_string_at(t, i + 1) {
            Ok((content, j)) => Ok((JsonValue::Str(content), j)),
            Err(e) => Err(e),
        }
    } else if c == '[' {
        proof {
            assert(s.skip(1) =~= t@.skip(i + 1));
        }
        let j = ws_to(t, i + 1);
        if j < t.len() && t[j] == ']' {
            proof {
                let r = skip_ws(s.skip(1));
                assert(r == t@.skip(j as int));
                assert(r[0] == ']');
                assert(r.skip(1) =~= t@.skip(j + 1));
                assert(views_of(Seq::<JsonValue>::empty()) =~= Seq::<JsonData>::empty());
            }
            Ok((JsonValue::Arr(Vec::new()), j + 1))
        } else {
            proof {
                let r = skip_ws(s.skip(1));
                assert(r == t@.skip(j as int));
                if r.len() > 0 {
                    assert(r[0] == t@[j as int]);
                }
                assert(r.len() < s.len());
            }
            match parse_items_at(t, j) {
                Ok((items, k)) => Ok((JsonValue::Arr(items), k)),
                Err(e) => Err(e),
            }
        }
    } else if c == '{' {
        proof {
            assert(s.skip(1) =~= t@.skip(i + 1));
        }
        let j = ws_to(t, i + 1);
        if j < t.len() && t[j] == '}' {
            proof {
                let r = skip_ws(s.skip(1));
                assert(r == t@.skip(j as int));
                assert(r[0] == '}');
                assert(r.skip(1) =~= t@.skip(j + 1));
                assert(entry_views_of(Seq::<(Vec<char>, JsonValue)>::empty()) =~= Seq::<
                    (Seq<char>, JsonData),
                >::empty());
            }
            Ok((JsonValue::Obj(Vec::new()), j + 1))
        } else {
            proof {
                let r = skip_ws(s.skip(1));
                assert(r == t@.skip(j as int));
                if r.len() > 0 {
                    assert(r[0] == t@[j as int]);
                }
                assert(r.len() < s.len());
            }
            match parse_members_at(t, j) {
                Ok((entries, k)) => Ok((JsonValue::Obj(entries), k)),
                Err(e) => Err(e),
            }
        }
    } else if ('0' <= c && c <= '9') || c == '-' {
        let mut acc: Vec<char> = Vec::new();
        let mut j: usize = i;
        while j < t.len() && (('0' <= t[j] && t[j] <= '9') || t[j] == '-' || t[j] == '+' || t[j]
            == '.' || t[j] == 'e' || t[j] == 'E')
            invariant
                i <= j <= t.len(),
                numeral_len(t@.skip(i as int)) == (j - i) + numeral_len(t@.skip(j as int)),
                acc@ == t@.subrange(i as int, j as int),
            decreases t.len() - j,
        {
            proof {
                assert(t@.skip(j as int)[0] == t@[j as int]);
                assert(is_num_char(t@.skip(j as int)[0]));
                assert(t@.skip(j as int).skip(1) =~= t@.skip(j + 1));
            }
            acc.push(t[j]);
            proof {
                assert(acc@ =~= t@.subrange(i as int, j + 1));
            }
            j += 1;
        }
        proof {
            if j < t.len() {
                assert(t@.skip(j as int)[0] == t@[j as int]);
                assert(!is_num_char(t@.skip(j as int)[0]));
            } else {
                assert(t@.skip(j as int).len() == 0);
            }
            assert(numeral_len(t@.skip(j as int)) == 0);
            let n = numeral_len(s);
            assert(n == j - i);
            assert(s.take(n) =~= t@.subrange(i as int, j as int));
            assert(s.skip(n) =~= t@.skip(j as int));
        }
        Ok((JsonValue::Num(acc), j))
    } else {
        Err(ParseError::Malformed)
    }
}

/// Parse comma-separated array elements at `i`, through the closing
/// bracket.
fn parse_items_at(t: &Vec<char>, i: usize) -> (r: Result<(Vec<JsonValue>, usize), ParseError>)
    requires
        i <= t.len(),
    ensures
        match parse_items(t@.skip(i as int)) {
            Some(p) => {
                &&& r is Ok
                &&& views_of(r->Ok_0.0@) == p.0
                &&& i <= r->Ok_0.1 <= t.len()
                &&& t@.skip(r->Ok_0.1 as int) == p.1
            },
            None => r is Err,
        },
    decreases t.len() - i, 1int,
{
    broadcast use lemma_views_of;

    let ghost s = t@.skip(i as int);
    let (v, j) = match parse_value_at(t, i) {
        Ok(p) => p,
        Err(e) => {
            return Err(e);
        },
    };
    let j2 = ws_to(t, j);
    proof {
        assert(skip_ws(t@.skip(j as int)) == t@.skip(j2 as int));
        if j2 < t.len() {
            assert(t@.skip(j2 as int)[0] == t@[j2 as int]);
        }
    }
    if j2 < t.len() {
        let c = t[j2];
        if c == ']' {
            let mut items: Vec<JsonValue> = Vec::new();
            items.push(v);
            proof {
                let p = parse_value(s)->Some_0;
                assert(t@.skip(j2 as int).skip(1) =~= t@.skip(j2 + 1));
                assert(views_of(items@) =~= seq![p.0]);
            }
            return Ok((items, j2 + 1));
        }
        if c == ',' {
            let j3 = ws_to(t, j2 + 1);
            proof {
                assert(t@.skip(j2 as int).skip(1) =~= t@.skip(j2 + 1));
                assert(t@.skip(j3 as int).len() < s.len());
            }
            let (mut items, k) = match parse_items_at(t, j3) {
                Ok(p) => p,
                Err(e) => {
                    return Err(e);
                },
            };
            let ghost olditems = items@;
            items.insert(0, v);
            proof {
                let p = parse_value(s)->Some_0;
                let q = parse_items(t@.skip(j3 as int))->Some_0;
                assert(items@ =~= seq![v] + olditems);
                lemma_views_of(items@);
                lemma_views_of(olditems);
                assert(views_of(items@) =~= seq![p.0] + q.0);
            }
            return Ok((items, k));
        }
        return Err(ParseError::Malformed);
    }
    proof {
        assert(t@.skip(j2 as int).len() == 0);
    }
    Err(ParseError::Malformed)
}

/// Parse comma-separated object members at `i`, through the closing
/// brace.
fn parse_members_at(t: &Vec<char>, i: usize) -> (r: Result<
    (Vec<(Vec<char>, JsonValue)>, usize),
    ParseError,
>)
    requires
        i <= t.len(),
    ensures
        match parse_members(t@.skip(i as int)) {
            Some(p) => {
                &&& r is Ok
                &&& entry_views_of(r->Ok_0.0@) == p.0
                &&& i <= r->Ok_0.1 <= t.len()
                &&& t@.skip(r->Ok_0.1 as int) == p.1
            },
            None => r is Err,
        },
    decreases t.len() - i, 1int,
{
    broadcast use lemma_entry_views_of;

    let ghost s = t@.skip(i as int);
    if i == t.len() {
        proof {
            assert(s.len() == 0);
        }
        return Err(ParseError::Malformed);
    }
    proof {
        assert(s[0] == t@[i as int]);
    }
    if t[i] != '"' {
        return Err(ParseError::Malformed);
    }
    proof {
        assert(s.skip(1) =~= t@.skip(i + 1));
    }
    let (key, j) = match parse_string_at(t, i + 1) {
        Ok(p) => p,
        Err(e) => {
            return Err(e);
        },
    };
    let j2 = ws_to(t, j);
    proof {
        if j2 < t.len() {
            assert(t@.skip(j2 as int)[0] == t@[j2 as int]);
        } else {
            assert(t@.skip(j2 as int).len() == 0);
        }
    }
    if j2 == t.len() || t[j2] != ':' {
        return Err(ParseError::Malformed);
    }
    proof {
        assert(t@.skip(j2 as int).skip(1) =~= t@.skip(j2 + 1));
    }
    let j3 = ws_to(t, j2 + 1);
    proof {
        assert(t@.skip(j3 as int).len() < s.len());
    }
    let (v, j4) = match parse_value_at(t, j3) {
        Ok(p) => p,
        Err(e) => {
            return Err(e);
        },
    };
    let j5 = ws_to(t, j4);
    proof {
        if j5 < t.len() {
            assert(t@.skip(j5 as int)[0] == t@[j5 as int]);
        } else {
            assert(t@.skip(j5 as int).len() == 0);
        }
    }
    if j5 < t.len() {
        let c = t[j5];
        if c == '}' {
            let mut entries: Vec<(Vec<char>, JsonValue)> = Vec::new();
            entries.push((key, v));
            proof {
                let k = parse_string(s.skip(1))->Some_0;
                let p = parse_value(t@.skip(j3 as int))->Some_0;
                assert(t@.skip(j5 as int).skip(1) =~= t@.skip(j5 + 1));
                assert(entry_views_of(entries@) =~= seq![(k.0, p.0)]);
            }
            return Ok((entries, j5 + 1));
        }
        if c == ',' {
            proof {
                assert(t@.skip(j5 as int).skip(1) =~= t@.skip(j5 + 1));
            }
            let j6 = ws_to(t, j5 + 1);
            proof {
                assert(t@.skip(j6 as int).len() < s.len());
            }
            let (mut entries, k2) = match parse_members_at(t, j6) {
                Ok(p) => p,
                Err(e) => {
                    return Err(e);
                },
            };
            let ghost oldentries = entries@;
            entries.insert(0, (key, v));
            proof {
                let k = parse_string(s.skip(1))->Some_0;
                let p = parse_value(t@.skip(j3 as int))->Some_0;
                let q = parse_members(t@.skip(j6 as int))->Some_0;
                assert(entries@ =~= seq![(key, v)] + oldentries);
                lemma_entry_views_of(entries@);
                lemma_entry_views_of(oldentries);
                assert(entry_views_of(entries@) =~= seq![(k.0, p.0)] + q.0);
            }
            return Ok((entries, k2));
        }
        return Err(ParseError::Malformed);
    }
    Err(ParseError::Malformed)
}

/// Parse a whole document.
pub fn parse_text(t: &Vec<char>) -> (r: Result<JsonValue, ParseError>)
    ensures
        match parse_json(t@) {
            Some(d) => r is Ok && r->Ok_0@ == d,
            None => r is Err,
        },
{
    proof {
        assert(t@.skip(0) =~= t@);
    }
    let i = ws_to(t, 0);
    let (v, j) = match parse_value_at(t, i) {
        Ok(p) => p,
        Err(e) => {
            return Err(e);
        },
    };
    let k = ws_to(t, j);
    if k == t.len() {
        proof {
            assert(t@.skip(k as int).len() == 0);
        }
        Ok(v)
    } else {
        proof {
            assert(t@.skip(k as int).len() > 0);
        }
        Err(ParseError::Malformed)
    }
}

} // verus!

verus! {

/// The reader state of the comment-stripping filter.
pub enum StripState {
    Normal,
    InStr,
    InStrEsc,
    Slash,
    LineComment,
    BlockComment,
    BlockStar,
}

/// One step of the comment-stripping filter: the next state and the
/// characters emitted for `c`.
pub open spec fn strip_step(st: StripState, c: char) -> (StripState, Seq<char>) {
    match st {
        StripState::Normal => if c == '"' {
            (StripState::InStr, seq![c])
        } else if c == '/' {
            (StripState::Slash, Seq::empty())
        } else {
            (StripState::Normal, seq![c])
        },
        StripState::InStr => if c == '"' {
            (StripState::Normal, seq![c])
        } else if c == '\\' {
            (StripState::InStrEsc, seq![c])
        } else {
            (StripState::InStr, seq![c])
        },
        StripState::InStrEsc => (StripState::InStr, seq![c]),
        StripState::Slash => if c == '/' {
            (StripState::LineComment, Seq::empty())
        } else if c == '*' {
            (StripState::BlockComment, Seq::empty())
        } else {
            (StripState::Normal, seq!['/', c])
        },
        StripState::LineComment => if c == '\n' {
            (StripState::Normal, seq![c])
        } else {
            (StripState::LineComment, Seq::empty())
        },
        StripState::BlockComment => if c == '*' {
            (StripState::BlockStar, Seq::empty())
        } else {
            (StripState::BlockComment, Seq::empty())
        },
        StripState::BlockStar => if c == '/' {
            (StripState::Normal, Seq::empty())
        } else if c == '*' {
            (StripState::BlockStar, Seq::empty())
        } else {
            (StripState::BlockComment, Seq::empty())
        },
    }
}

/// Run the comment-stripping filter over `s`, starting in `st`.
pub open spec fn strip_from(s: Seq<char>, st: StripState) -> Seq<char>
    decreases s.len(),
{
    if s.len() == 0 {
        match st {
            StripState::Slash => seq!['/'],
            _ => Seq::empty(),
        }
    } else {
        strip_step(st, s[0]).1 + strip_from(s.skip(1), strip_step(st, s[0]).0)
    }
}

/// The text with line and block comments outside string literals removed.
pub open spec fn strip_comments_of(s: Seq<char>) -> Seq<char> {
    strip_from(s, StripState::Normal)
}

/// Apply one filter step: emit the step's output and return its state.
fn strip_push(st: StripState, c: char, out: &mut Vec<char>) -> (r: StripState)
    ensures
        strip_step(st, c).0 == r,
        final(out)@ == old(out)@ + strip_step(st, c).1,
{
    let next: StripState;
    match st {
        StripState::Normal => {
            if c == '"' {
                next = StripState::InStr;
                out.push(c);
            } else if c == '/' {
                next = StripState::Slash;
            } else {
                next = StripState::Normal;
                out.push(c);
            }
        },
        StripState::InStr => {
            if c == '"' {
                next = StripState::Normal;
            } else if c == '\\' {
                next = StripState::InStrEsc;
            } else {
                next = StripState::InStr;
            }
            out.push(c);
        },
        StripState::InStrEsc => {
            next = StripState::InStr;
            out.push(c);
        },
        StripState::Slash => {
            if c == '/' {
                next = StripState::LineComment;
            } else if c == '*' {
                next = StripState::BlockComment;
            } else {
                next = StripState::Normal;
                out.push('/');
                out.push(c);
            }
        },
        StripState::LineComment => {
            if c == '\n' {
                next = StripState::Normal;
                out.push(c);
            } else {
                next = StripState::LineComment;
            }
        },
        StripState::BlockComment => {
            if c == '*' {
                next = StripState::BlockStar;
            } else {
                next = StripState::BlockComment;
            }
        },
        StripState::BlockStar => {
            if c == '/' {
                next = StripState::Normal;
            } else if c == '*' {
                next = StripState::BlockStar;
            } else {
                next = StripState::BlockComment;
            }
        },
    }
    proof {
        assert(final(out)@ =~= old(out)@ + strip_step(st, c).1);
    }
    next
}

/// Remove line and block comments outside string literals.
pub fn strip_comments(t: &Vec<char>) -> (r: Vec<char>)
    ensures
        r@ == strip_comments_of(t@),
{
    let mut out: Vec<char> = Vec::new();
    let mut st = StripState::Normal;
    let mut i: usize = 0;
    proof {
        assert(t@.skip(0) =~= t@);
    }
    while i < t.len()
        invariant
            i <= t.len(),
            strip_comments_of(t@) == out@ + strip_from(t@.skip(i as int), st),
        decreases t.len() - i,
    {
        let c = t[i];
        proof {
            assert(t@.skip(i as int)[0] == t@[i as int]);
            assert(t@.skip(i as int).skip(1) =~= t@.skip(i + 1));
        }
        let ghost prev = st;
        st = strip_push(st, c, &mut out);
        proof {
            assert(strip_from(t@.skip(i as int), prev) == strip_step(prev, t@[i as int]).1
                + strip_from(t@.skip(i + 1), st));
            assert(strip_comments_of(t@) =~= out@ + strip_from(t@.skip(i + 1), st));
        }
        i += 1;
    }
    proof {
        assert(t@.skip(i as int).len() == 0);
    }
    match st {
        StripState::Slash => {
            out.push('/');
        },
        _ => {},
    }
    proof {
        assert(out@ =~= strip_comments_of(t@));
    }
    out
}

} // verus!

verus! {

/// True when the filter, outside strings and comments, emits `c` itself.
pub open spec fn passes_plain(c: char) -> bool {
    c != '"' && c != '/'
}

/// The filter passes a run of plain characters through unchanged.
pub proof fn lemma_strip_plain(p: Seq<char>, rest: Seq<char>)
    requires
        forall|i: int| 0 <= i < p.len() ==> passes_plain(#[trigger] p[i]),
    ensures
        strip_from(p + rest, StripState::Normal) == p + strip_from(rest, StripState::Normal),
    decreases p.len(),
{
    let s = p + rest;
    if p.len() == 0 {
        assert(s =~= rest);
        assert(p + strip_from(rest, StripState::Normal) =~= strip_from(
            rest,
            StripState::Normal,
        ));
    } else {
        assert(s[0] == p[0]);
        assert(s.skip(1) =~= p.skip(1) + rest);
        lemma_strip_plain(p.skip(1), rest);
        assert(strip_step(StripState::Normal, p[0]) == (StripState::Normal, seq![p[0]]));
        assert(strip_from(s, StripState::Normal) =~= p + strip_from(rest, StripState::Normal));
    }
}

/// The filter passes escaped string content and the closing quote through
/// unchanged, returning to plain reading.
pub proof fn lemma_strip_string(content: Seq<char>, rest: Seq<char>)
    ensures
        strip_from(escape(content) + seq!['"'] + rest, StripState::InStr) == escape(content)
            + seq!['"'] + strip_from(rest, StripState::Normal),
    decreases content.len(),
{
    let s = escape(content) + seq!['"'] + rest;
    if content.len() == 0 {
        assert(escape(content) == Seq::<char>::empty());
        assert(s =~= seq!['"'] + rest);
        assert(s[0] == '"');
        assert(s.skip(1) =~= rest);
        assert(strip_step(StripState::InStr, '"') == (StripState::Normal, seq!['"']));
        assert(strip_from(s, StripState::InStr) =~= escape(content) + seq!['"'] + strip_from(
            rest,
            StripState::Normal,
        ));
    } else {
        let c = content[0];
        let ec = escape_char(c);
        assert(escape(content) == ec + escape(content.skip(1)));
        lemma_strip_string(content.skip(1), rest);
        if c == '"' || c == '\\' || c == '\n' || c == '\t' || c == '\r' {
            assert(ec.len() == 2 && ec[0] == '\\');
            assert(s[0] == '\\');
            assert(s[1] == ec[1]);
            assert(s.skip(1)[0] == ec[1]);
            assert(strip_step(StripState::InStr, '\\') == (StripState::InStrEsc, seq!['\\']));
            assert(strip_step(StripState::InStrEsc, ec[1]) == (StripState::InStr, seq![
                ec[1],
            ]));
            assert(s.skip(1).skip(1) =~= escape(content.skip(1)) + seq!['"'] + rest);
            assert(strip_from(s, StripState::InStr) == seq!['\\'] + strip_from(
                s.skip(1),
                StripState::InStrEsc,
            ));
            assert(strip_from(s.skip(1), StripState::InStrEsc) == seq![ec[1]] + strip_from(
                s.skip(1).skip(1),
                StripState::InStr,
            ));
            assert(strip_from(s, StripState::InStr) =~= escape(content) + seq!['"']
                + strip_from(rest, StripState::Normal));
        } else {
            assert(ec =~= seq![c]);
            assert(s[0] == c);
            assert(c != '"' && c != '\\');
            assert(strip_step(StripState::InStr, c) == (StripState::InStr, seq![c]));
            assert(s.skip(1) =~= escape(content.skip(1)) + seq!['"'] + rest);
            assert(strip_from(s, StripState::InStr) =~= escape(content) + seq!['"']
                + strip_from(rest, StripState::Normal));
        }
    }
}

/// The filter passes a printed string literal through unchanged.
pub proof fn lemma_strip_string_lit(content: Seq<char>, rest: Seq<char>)
    ensures
        strip_from(print_string(content) + rest, StripState::Normal) == print_string(content)
            + strip_from(rest, StripState::Normal),
{
    let s = print_string(content) + rest;
    assert(s[0] == '"');
    assert(strip_step(StripState::Normal, '"') == (StripState::InStr, seq!['"']));
    assert(s.skip(1) =~= escape(content) + seq!['"'] + rest);
    lemma_strip_string(content, rest);
    assert(strip_from(s, StripState::Normal) =~= print_string(content) + strip_from(
        rest,
        StripState::Normal,
    ));
}

/// The filter passes a printed well-formed value through unchanged.
pub proof fn lemma_strip_value(d: JsonData, rest: Seq<char>)
    requires
        crate::json::wf_json(d),
    ensures
        strip_from(print_json(d) + rest, StripState::Normal) == print_json(d) + strip_from(
            rest,
            StripState::Normal,
        ),
    decreases d, 0int,
{
    match d {
        JsonData::Null => {
            lemma_strip_plain(print_json(d), rest);
        },
        JsonData::Bool(_) => {
            lemma_strip_plain(print_json(d), rest);
        },
        JsonData::Num(t) => {
            assert forall|i: int| 0 <= i < t.len() implies passes_plain(#[trigger] t[i]) by {
                assert(is_num_char(t[i]));
            }
            lemma_strip_plain(t, rest);
        },
        JsonData::Str(content) => {
            lemma_strip_string_lit(content, rest);
        },
        JsonData::Arr(items) => {
            let s = print_json(d) + rest;
            assert(s[0] == '[');
            assert(strip_step(StripState::Normal, '[') == (StripState::Normal, seq!['[']));
            if items.len() == 0 {
                assert(print_items(items) == Seq::<char>::empty());
                assert(s.skip(1) =~= seq![']'] + rest);
                assert(strip_step(StripState::Normal, ']') == (StripState::Normal, seq![
                    ']',
                ]));
                assert(s.skip(1).skip(1) =~= rest);
                assert(strip_from(s, StripState::Normal) == seq!['['] + strip_from(
                    s.skip(1),
                    StripState::Normal,
                ));
                assert(strip_from(s.skip(1), StripState::Normal) == seq![']'] + strip_from(
                    s.skip(1).skip(1),
                    StripState::Normal,
                ));
                assert(strip_from(s, StripState::Normal) =~= print_json(d) + strip_from(
                    rest,
                    StripState::Normal,
                ));
            } else {
                assert(s.skip(1) =~= print_items(items) + (seq![']'] + rest));
                lemma_strip_items(items, seq![']'] + rest);
                assert((seq![']'] + rest)[0] == ']');
                assert((seq![']'] + rest).skip(1) =~= rest);
                assert(strip_from(seq![']'] + rest, StripState::Normal) =~= seq![']']
                    + strip_from(rest, StripState::Normal));
                assert(strip_from(s, StripState::Normal) =~= print_json(d) + strip_from(
                    rest,
                    StripState::Normal,
                ));
            }
        },
        JsonData::Obj(entries) => {
            let s = print_json(d) + rest;
            assert(s[0] == '{');
            assert(strip_step(StripState::Normal, '{') == (StripState::Normal, seq!['{']));
            if entries.len() == 0 {
                assert(print_entries(entries) == Seq::<char>::empty());
                assert(s.skip(1) =~= seq!['}'] + rest);
                assert(strip_step(StripState::Normal, '}') == (StripState::Normal, seq![
                    '}',
                ]));
                assert(s.skip(1).skip(1) =~= rest);
                assert(strip_from(s, StripState::Normal) == seq!['{'] + strip_from(
                    s.skip(1),
                    StripState::Normal,
                ));
                assert(strip_from(s.skip(1), StripState::Normal) == seq!['}'] + strip_from(
                    s.skip(1).skip(1),
                    StripState::Normal,
                ));
                assert(strip_from(s, StripState::Normal) =~= print_json(d) + strip_from(
                    rest,
                    StripState::Normal,
                ));
            } else {
                assert(s.skip(1) =~= print_entries(entries) + (seq!['}'] + rest));
                lemma_strip_members(entries, seq!['}'] + rest);
                assert((seq!['}'] + rest)[0] == '}');
                assert((seq!['}'] + rest).skip(1) =~= rest);
                assert(strip_from(seq!['}'] + rest, StripState::Normal) =~= seq!['}']
                    + strip_from(rest, StripState::Normal));
                assert(strip_from(s, StripState::Normal) =~= print_json(d) + strip_from(
                    rest,
                    StripState::Normal,
                ));
            }
        },
    }
}

/// The filter passes printed array elements through unchanged.
pub proof fn lemma_strip_items(items: Seq<JsonData>, rest: Seq<char>)
    requires
        items.len() >= 1,
        forall|i: int| 0 <= i < items.len() ==> crate::json::wf_json(#[trigger] items[i]),
    ensures
        strip_from(print_items(items) + rest, StripState::Normal) == print_items(items)
            + strip_from(rest, StripState::Normal),
    decreases items, 1int,
{
    if items.len() == 1 {
        assert(print_items(items) == print_json(items[0]));
        lemma_strip_value(items[0], rest);
    } else {
        let tail = items.subrange(1, items.len() as int);
        assert(print_items(items) == print_json(items[0]) + seq![','] + print_items(tail));
        let after = seq![','] + print_items(tail) + rest;
        assert(print_items(items) + rest =~= print_json(items[0]) + after);
        lemma_strip_value(items[0], after);
        assert(after[0] == ',');
        assert(strip_step(StripState::Normal, ',') == (StripState::Normal, seq![',']));
        assert(after.skip(1) =~= print_items(tail) + rest);
        lemma_strip_items(tail, rest);
        assert(strip_from(after, StripState::Normal) =~= seq![','] + (print_items(tail)
            + strip_from(rest, StripState::Normal)));
        assert(strip_from(print_items(items) + rest, StripState::Normal) =~= print_items(
            items,
        ) + strip_from(rest, StripState::Normal));
    }
}

/// The filter passes printed object members through unchanged.
pub proof fn lemma_strip_members(entries: Seq<(Seq<char>, JsonData)>, rest: Seq<char>)
    requires
        entries.len() >= 1,
        forall|i: int|
            0 <= i < entries.len() ==> crate::json::wf_json((#[trigger] entries[i]).1),
    ensures
        strip_from(print_entries(entries) + rest, StripState::Normal) == print_entries(entries)
            + strip_from(rest, StripState::Normal),
    decreases entries, 1int,
{
    let k = entries[0].0;
    let v = entries[0].1;
    assert(print_entry(entries[0]) == print_string(k) + seq![':'] + print_json(v));
    if entries.len() == 1 {
        assert(print_entries(entries) == print_entry(entries[0]));
        let after1 = seq![':'] + print_json(v) + rest;
        assert(print_entries(entries) + rest =~= print_string(k) + after1);
        lemma_strip_string_lit(k, after1);
        assert(after1[0] == ':');
        assert(strip_step(StripState::Normal, ':') == (StripState::Normal, seq![':']));
        assert(after1.skip(1) =~= print_json(v) + rest);
        assert(crate::json::wf_json(v));
        lemma_strip_value(v, rest);
        assert(strip_from(after1, StripState::Normal) =~= seq![':'] + (print_json(v)
            + strip_from(rest, StripState::Normal)));
        assert(strip_from(print_entries(entries) + rest, StripState::Normal)
            =~= print_entries(entries) + strip_from(rest, StripState::Normal));
    } else {
        let tail = entries.subrange(1, entries.len() as int);
        assert(print_entries(entries) == print_entry(entries[0]) + seq![','] + print_entries(
            tail,
        ));
        let after2 = seq![','] + print_entries(tail) + rest;
        let after1 = seq![':'] + print_json(v) + after2;
        assert(print_entries(entries) + rest =~= print_string(k) + after1);
        lemma_strip_string_lit(k, after1);
        assert(after1[0] == ':');
        assert(strip_step(StripState::Normal, ':') == (StripState::Normal, seq![':']));
        assert(after1.skip(1) =~= print_json(v) + after2);
        assert(crate::json::wf_json(v));
        lemma_strip_value(v, after2);
        assert(after2[0] == ',');
        assert(strip_step(StripState::Normal, ',') == (StripState::Normal, seq![',']));
        assert(after2.skip(1) =~= print_entries(tail) + rest);
        lemma_strip_members(tail, rest);
        assert(strip_from(after2, StripState::Normal) =~= seq![','] + (print_entries(tail)
            + strip_from(rest, StripState::Normal)));
        assert(strip_from(after1, StripState::Normal) =~= seq![':'] + (print_json(v)
            + strip_from(after2, StripState::Normal)));
        assert(strip_from(print_entries(entries) + rest, StripState::Normal)
            =~= print_entries(entries) + strip_from(rest, StripState::Normal));
    }
}

/// Law: the comment filter leaves a printed well-formed value unchanged.
pub proof fn lemma_strip_print(d: JsonData)
    requires
        crate::json::wf_json(d),
    ensures
        strip_comments_of(print_json(d)) == print_json(d),
{
    lemma_strip_value(d, Seq::empty());
    assert(print_json(d) + Seq::<char>::empty() =~= print_json(d));
    assert(strip_from(Seq::<char>::empty(), StripState::Normal) == Seq::<char>::empty());
    assert(print_json(d) + strip_from(Seq::<char>::empty(), StripState::Normal) =~= print_json(
        d,
    ));
}

} // verus!

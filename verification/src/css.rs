//! The stylesheet block editor: line-oriented get/set of one property
//! inside one selector's brace-delimited block, plus bootstrapping of a
//! fixed keyframe library.
//!
//! A selector block starts at the first line whose trimmed content starts
//! with the selector and which contains an opening brace or is followed
//! by a line that does; it ends at the first later line containing a
//! closing brace.  Matching is heuristic text surgery, kept exactly as
//! documented; no CSS grammar is parsed.

use vstd::prelude::*;

use crate::text::{is_space, trim, starts_with};

verus! {

// ---------------------------------------------------------------------
// Lines
// ---------------------------------------------------------------------

/// The text split at newlines; always at least one line.
pub open spec fn lines_of(s: Seq<char>) -> Seq<Seq<char>>
    decreases s.len(),
{
    if s.len() == 0 {
        seq![Seq::empty()]
    } else if s[0] == '\n' {
        seq![Seq::<char>::empty()] + lines_of(s.skip(1))
    } else {
        let rest = lines_of(s.skip(1));
        seq![seq![s[0]] + rest[0]] + rest.skip(1)
    }
}

/// The lines joined with newlines.
pub open spec fn unlines(ls: Seq<Seq<char>>) -> Seq<char>
    decreases ls.len(),
{
    if ls.len() == 0 {
        Seq::empty()
    } else if ls.len() == 1 {
        ls[0]
    } else {
        ls[0] + seq!['\n'] + unlines(ls.skip(1))
    }
}

/// True when no line contains a newline.
pub open spec fn newline_free(ls: Seq<Seq<char>>) -> bool {
    forall|i: int, j: int|
        0 <= i < ls.len() && 0 <= j < ls[i].len() ==> #[trigger] ls[i][j] != '\n'
}

/// Splitting always yields at least one line, and no line contains a
/// newline.
pub proof fn lemma_lines_of_shape(s: Seq<char>)
    ensures
        lines_of(s).len() >= 1,
        newline_free(lines_of(s)),
    decreases s.len(),
{
    if s.len() == 0 {
    } else if s[0] == '\n' {
        lemma_lines_of_shape(s.skip(1));
        let ls = lines_of(s);
        let rest = lines_of(s.skip(1));
        assert forall|i: int, j: int|
            0 <= i < ls.len() && 0 <= j < ls[i].len() implies #[trigger] ls[i][j] != '\n' by {
            if i > 0 {
                assert(ls[i] == rest[i - 1]);
            }
        }
    } else {
        lemma_lines_of_shape(s.skip(1));
        let ls = lines_of(s);
        let rest = lines_of(s.skip(1));
        assert forall|i: int, j: int|
            0 <= i < ls.len() && 0 <= j < ls[i].len() implies #[trigger] ls[i][j] != '\n' by {
            if i == 0 {
                assert(ls[0] == seq![s[0]] + rest[0]);
                if j > 0 {
                    assert(ls[0][j] == rest[0][j - 1]);
                }
            } else {
                assert(ls[i] == rest[i]);
            }
        }
    }
}

/// Joining the split lines yields the text back.
pub proof fn lemma_unlines_lines(s: Seq<char>)
    ensures
        unlines(lines_of(s)) == s,
    decreases s.len(),
{
    if s.len() == 0 {
        assert(unlines(lines_of(s)) =~= s);
    } else if s[0] == '\n' {
        lemma_unlines_lines(s.skip(1));
        lemma_lines_of_shape(s.skip(1));
        let ls = lines_of(s);
        let rest = lines_of(s.skip(1));
        assert(ls.len() == 1 + rest.len());
        assert(ls[0] =~= Seq::<char>::empty());
        assert(ls.skip(1) =~= rest);
        assert(unlines(ls) == ls[0] + seq!['\n'] + unlines(rest));
        assert(unlines(ls) =~= s);
    } else {
        lemma_unlines_lines(s.skip(1));
        lemma_lines_of_shape(s.skip(1));
        let ls = lines_of(s);
        let rest = lines_of(s.skip(1));
        assert(ls[0] == seq![s[0]] + rest[0]);
        assert(ls.skip(1) =~= rest.skip(1));
        if rest.len() == 1 {
            assert(ls.len() == 1);
            assert(unlines(ls) == ls[0]);
            assert(unlines(rest) == rest[0]);
            assert(rest[0] == s.skip(1));
            assert(ls[0] =~= s);
            assert(unlines(ls) =~= s);
        } else {
            assert(ls.len() >= 2);
            assert(rest.len() >= 2);
            assert(unlines(ls) == ls[0] + seq!['\n'] + unlines(ls.skip(1)));
            assert(unlines(rest) == rest[0] + seq!['\n'] + unlines(rest.skip(1)));
            assert(s.skip(1) == unlines(rest));
            assert(unlines(ls.skip(1)) == unlines(rest.skip(1)));
            assert(unlines(ls) =~= seq![s[0]] + (rest[0] + seq!['\n'] + unlines(
                rest.skip(1),
            )));
            assert(seq![s[0]] + s.skip(1) =~= s);
            assert(unlines(ls) =~= s);
        }
    }
}

/// Splitting a joined newline-free line list yields the list back.
pub proof fn lemma_lines_unlines(ls: Seq<Seq<char>>)
    requires
        ls.len() >= 1,
        newline_free(ls),
    ensures
        lines_of(unlines(ls)) == ls,
    decreases ls.len(), ls[0].len(),
{
    let s = unlines(ls);
    if ls.len() == 1 {
        if ls[0].len() == 0 {
            assert(s.len() == 0);
            assert(lines_of(s) =~~= ls);
        } else {
            assert(s == ls[0]);
            assert(s[0] != '\n');
            let tail = seq![ls[0].skip(1)];
            assert(tail[0].len() < ls[0].len());
            assert(newline_free(tail)) by {
                assert forall|i: int, j: int|
                    0 <= i < tail.len() && 0 <= j < tail[i].len() implies #[trigger] tail[i][j]
                    != '\n' by {
                    assert(tail[0][j] == ls[0][j + 1]);
                }
            }
            assert(unlines(tail) == ls[0].skip(1));
            assert(s.skip(1) == ls[0].skip(1));
            lemma_lines_unlines(tail);
            let rest = lines_of(s.skip(1));
            assert(rest == tail);
            assert(seq![ls[0][0]] + rest[0] =~= ls[0]);
            assert(rest.skip(1) =~= Seq::<Seq<char>>::empty());
            assert(lines_of(s) == seq![seq![s[0]] + rest[0]] + rest.skip(1));
            assert(lines_of(s)[0] == seq![s[0]] + rest[0]);
            assert(seq![s[0]] + rest[0] =~= seq![ls[0][0]] + rest[0]);
            assert(lines_of(s) =~= ls);
        }
    } else {
        assert(s == ls[0] + seq!['\n'] + unlines(ls.skip(1)));
        if ls[0].len() == 0 {
            assert(s[0] == '\n');
            assert(s.skip(1) =~= unlines(ls.skip(1)));
            assert(ls.skip(1).len() >= 1);
            assert(newline_free(ls.skip(1))) by {
                assert forall|i: int, j: int|
                    0 <= i < ls.skip(1).len() && 0 <= j < ls.skip(1)[i].len() implies #[trigger] ls.skip(
                        1,
                    )[i][j] != '\n' by {
                    assert(ls.skip(1)[i] == ls[i + 1]);
                }
            }
            lemma_lines_unlines(ls.skip(1));
            assert(lines_of(s) =~= ls) by {
                assert(ls[0] =~= Seq::<char>::empty());
            }
        } else {
            assert(s[0] == ls[0][0]);
            assert(s[0] != '\n');
            let tail = seq![ls[0].skip(1)] + ls.skip(1);
            assert(tail.len() == ls.len());
            assert(tail[0].len() < ls[0].len());
            assert(newline_free(tail)) by {
                assert forall|i: int, j: int|
                    0 <= i < tail.len() && 0 <= j < tail[i].len() implies #[trigger] tail[i][j]
                    != '\n' by {
                    if i == 0 {
                        assert(tail[0][j] == ls[0][j + 1]);
                    } else {
                        assert(tail[i] == ls[i]);
                    }
                }
            }
            assert(tail.skip(1) =~= ls.skip(1));
            assert(unlines(tail) == tail[0] + seq!['\n'] + unlines(ls.skip(1)));
            assert(s.skip(1) =~= unlines(tail));
            lemma_lines_unlines(tail);
            let rest = lines_of(s.skip(1));
            assert(rest == tail);
            assert(seq![s[0]] + rest[0] =~= ls[0]);
            assert(rest.skip(1) =~= ls.skip(1));
            assert(lines_of(s) =~= ls);
        }
    }
}

} // verus!

verus! {

// ---------------------------------------------------------------------
// Block resolution
// ---------------------------------------------------------------------

/// The identifier with separator characters replaced by dashes.
pub open spec fn dashed(id: Seq<char>) -> Seq<char> {
    id.map_values(|c: char| if c == '/' { '-' } else { c })
}

/// The selector text for a module identifier and a state suffix.
pub open spec fn sel_of(id: Seq<char>, suffix: Seq<char>) -> Seq<char> {
    seq!['#'] + dashed(id) + suffix
}

/// True when the line contains an opening brace.
pub open spec fn has_open(line: Seq<char>) -> bool {
    exists|i: int| 0 <= i < line.len() && line[i] == '{'
}

/// True when the line contains a closing brace.
pub open spec fn has_close(line: Seq<char>) -> bool {
    exists|i: int| 0 <= i < line.len() && line[i] == '}'
}

/// True when line `i` starts the selector's block: its trimmed content
/// starts with the selector, and it contains an opening brace or is
/// immediately followed by a line that does.
pub open spec fn is_block_start(ls: Seq<Seq<char>>, i: int, sel: Seq<char>) -> bool {
    &&& starts_with(trim(ls[i]), sel)
    &&& (has_open(ls[i]) || (i + 1 < ls.len() && has_open(ls[i + 1])))
}

/// The first block-start line at or after `i`, if any.
pub open spec fn find_start_from(ls: Seq<Seq<char>>, sel: Seq<char>, i: int) -> Option<int>
    decreases ls.len() - i,
{
    if i < 0 || i >= ls.len() {
        None
    } else if is_block_start(ls, i, sel) {
        Some(i)
    } else {
        find_start_from(ls, sel, i + 1)
    }
}

/// The first line at or after `i` containing a closing brace, if any.
pub open spec fn find_close_from(ls: Seq<Seq<char>>, i: int) -> Option<int>
    decreases ls.len() - i,
{
    if i < 0 || i >= ls.len() {
        None
    } else if has_close(ls[i]) {
        Some(i)
    } else {
        find_close_from(ls, i + 1)
    }
}

/// The exclusive end of the block starting at `start`: the first later
/// line with a closing brace, or the end of the text.
pub open spec fn block_end(ls: Seq<Seq<char>>, start: int) -> int {
    match find_close_from(ls, start + 1) {
        Some(j) => j,
        None => ls.len() as int,
    }
}

/// The first line in `[i, end)` whose trimmed content starts with `prop`,
/// if any.
pub open spec fn find_prop_from(ls: Seq<Seq<char>>, prop: Seq<char>, i: int, end: int) -> Option<
    int,
>
    decreases end - i,
{
    if i < 0 || i >= end || end > ls.len() {
        None
    } else if starts_with(trim(ls[i]), prop) {
        Some(i)
    } else {
        find_prop_from(ls, prop, i + 1, end)
    }
}

/// The first position of `c` in `line`, if any.
pub open spec fn find_char_from(line: Seq<char>, c: char, i: int) -> Option<int>
    decreases line.len() - i,
{
    if i < 0 || i >= line.len() {
        None
    } else if line[i] == c {
        Some(i)
    } else {
        find_char_from(line, c, i + 1)
    }
}

/// A value with one trailing semicolon removed.
pub open spec fn strip_semi(v: Seq<char>) -> Seq<char> {
    if v.len() > 0 && v[v.len() - 1] == ';' {
        v.take(v.len() - 1)
    } else {
        v
    }
}

/// The value held by a property line: everything after the first colon,
/// trimmed, with a trailing semicolon removed.  A line without a colon
/// holds the empty value.
pub open spec fn prop_value_of(line: Seq<char>) -> Seq<char> {
    match find_char_from(line, ':', 0) {
        Some(c) => strip_semi(trim(line.skip(c + 1))),
        None => Seq::empty(),
    }
}

/// The property line written by the editor.
pub open spec fn prop_line_of(prop: Seq<char>, value: Seq<char>) -> Seq<char> {
    seq![' ', ' ', ' ', ' '] + prop + seq![':', ' '] + value + seq![';']
}

/// The freshly appended block for a selector with one property.
pub open spec fn new_block_of(sel: Seq<char>, prop: Seq<char>, value: Seq<char>) -> Seq<char> {
    seq!['\n'] + sel + seq![' ', '{', '\n'] + prop_line_of(prop, value) + seq!['\n', '}']
}

/// Read one property of one selector block out of the stylesheet text.
pub open spec fn css_get(
    text: Seq<char>,
    id: Seq<char>,
    suffix: Seq<char>,
    prop: Seq<char>,
) -> Option<Seq<char>> {
    let ls = lines_of(text);
    let sel = sel_of(id, suffix);
    match find_start_from(ls, sel, 0) {
        None => None,
        Some(s) => {
            let e = block_end(ls, s);
            match find_prop_from(ls, prop, s + 1, e) {
                None => None,
                Some(p) => Some(prop_value_of(ls[p])),
            }
        },
    }
}

/// Write, overwrite or delete one property of one selector block.  An
/// empty value deletes the property line; a missing block is appended at
/// the end of the text.
pub open spec fn css_set(
    text: Seq<char>,
    id: Seq<char>,
    suffix: Seq<char>,
    prop: Seq<char>,
    value: Seq<char>,
) -> Seq<char> {
    let ls = lines_of(text);
    let sel = sel_of(id, suffix);
    if value.len() == 0 {
        match find_start_from(ls, sel, 0) {
            None => text,
            Some(s) => {
                let e = block_end(ls, s);
                match find_prop_from(ls, prop, s + 1, e) {
                    None => text,
                    Some(p) => unlines(ls.remove(p)),
                }
            },
        }
    } else {
        match find_start_from(ls, sel, 0) {
            None => text + new_block_of(sel, prop, value),
            Some(s) => {
                let e = block_end(ls, s);
                match find_prop_from(ls, prop, s + 1, e) {
                    Some(p) => unlines(ls.update(p, prop_line_of(prop, value))),
                    None => unlines(ls.insert(e, prop_line_of(prop, value))),
                }
            },
        }
    }
}

} // verus!

verus! {

/// What a found block start means: it is one, and no earlier line is.
pub proof fn lemma_find_start_spec(ls: Seq<Seq<char>>, sel: Seq<char>, i: int)
    requires
        0 <= i <= ls.len(),
    ensures
        match find_start_from(ls, sel, i) {
            Some(s) => i <= s < ls.len() && is_block_start(ls, s, sel) && (forall|j: int|
                i <= j < s ==> !is_block_start(ls, j, sel)),
            None => forall|j: int| i <= j < ls.len() ==> !is_block_start(ls, j, sel),
        },
    decreases ls.len() - i,
{
    if i < ls.len() && !is_block_start(ls, i, sel) {
        lemma_find_start_spec(ls, sel, i + 1);
    }
}

/// The first block start is found.
pub proof fn lemma_find_start_exact(ls: Seq<Seq<char>>, sel: Seq<char>, i: int, s: int)
    requires
        0 <= i <= s < ls.len(),
        is_block_start(ls, s, sel),
        forall|j: int| i <= j < s ==> !is_block_start(ls, j, sel),
    ensures
        find_start_from(ls, sel, i) == Some(s),
    decreases s - i,
{
    if i < s {
        lemma_find_start_exact(ls, sel, i + 1, s);
    }
}

/// Absence of a block start means none is found.
pub proof fn lemma_find_start_none(ls: Seq<Seq<char>>, sel: Seq<char>, i: int)
    requires
        0 <= i,
        forall|j: int| i <= j < ls.len() ==> !is_block_start(ls, j, sel),
    ensures
        find_start_from(ls, sel, i) is None,
    decreases ls.len() - i,
{
    if i < ls.len() {
        lemma_find_start_none(ls, sel, i + 1);
    }
}

/// What a found closing line means.
pub proof fn lemma_find_close_spec(ls: Seq<Seq<char>>, i: int)
    requires
        0 <= i <= ls.len(),
    ensures
        match find_close_from(ls, i) {
            Some(s) => i <= s < ls.len() && has_close(ls[s]) && (forall|j: int|
                i <= j < s ==> !has_close(ls[j])),
            None => forall|j: int| i <= j < ls.len() ==> !has_close(ls[j]),
        },
    decreases ls.len() - i,
{
    if i < ls.len() && !has_close(ls[i]) {
        lemma_find_close_spec(ls, i + 1);
    }
}

/// The first closing line is found.
pub proof fn lemma_find_close_exact(ls: Seq<Seq<char>>, i: int, s: int)
    requires
        0 <= i <= s < ls.len(),
        has_close(ls[s]),
        forall|j: int| i <= j < s ==> !has_close(ls[j]),
    ensures
        find_close_from(ls, i) == Some(s),
    decreases s - i,
{
    if i < s {
        lemma_find_close_exact(ls, i + 1, s);
    }
}

/// Absence of a closing line means none is found.
pub proof fn lemma_find_close_none(ls: Seq<Seq<char>>, i: int)
    requires
        0 <= i,
        forall|j: int| i <= j < ls.len() ==> !has_close(ls[j]),
    ensures
        find_close_from(ls, i) is None,
    decreases ls.len() - i,
{
    if i < ls.len() {
        lemma_find_close_none(ls, i + 1);
    }
}

/// What a found property line means.
pub proof fn lemma_find_prop_spec(ls: Seq<Seq<char>>, prop: Seq<char>, i: int, end: int)
    requires
        0 <= i,
    ensures
        match find_prop_from(ls, prop, i, end) {
            Some(p) => i <= p < end <= ls.len() && starts_with(trim(ls[p]), prop) && (
            forall|j: int| i <= j < p ==> !starts_with(trim(ls[j]), prop)),
            None => end > ls.len() || (forall|j: int|
                i <= j < end ==> !starts_with(trim(ls[j]), prop)),
        },
    decreases end - i,
{
    if i < end && end <= ls.len() && !starts_with(trim(ls[i]), prop) {
        lemma_find_prop_spec(ls, prop, i + 1, end);
    }
}

/// The first property line is found.
pub proof fn lemma_find_prop_exact(ls: Seq<Seq<char>>, prop: Seq<char>, i: int, end: int, p: int)
    requires
        0 <= i <= p < end <= ls.len(),
        starts_with(trim(ls[p]), prop),
        forall|j: int| i <= j < p ==> !starts_with(trim(ls[j]), prop),
    ensures
        find_prop_from(ls, prop, i, end) == Some(p),
    decreases p - i,
{
    if i < p {
        lemma_find_prop_exact(ls, prop, i + 1, end, p);
    }
}

/// Absence of a property line means none is found.
pub proof fn lemma_find_prop_none(ls: Seq<Seq<char>>, prop: Seq<char>, i: int, end: int)
    requires
        0 <= i,
        end <= ls.len(),
        forall|j: int| i <= j < end ==> !starts_with(trim(ls[j]), prop),
    ensures
        find_prop_from(ls, prop, i, end) is None,
    decreases end - i,
{
    if i < end {
        lemma_find_prop_none(ls, prop, i + 1, end);
    }
}

/// What a found character means.
pub proof fn lemma_find_char_spec(line: Seq<char>, c: char, i: int)
    requires
        0 <= i <= line.len(),
    ensures
        match find_char_from(line, c, i) {
            Some(p) => i <= p < line.len() && line[p] == c && (forall|j: int|
                i <= j < p ==> line[j] != c),
            None => forall|j: int| i <= j < line.len() ==> line[j] != c,
        },
    decreases line.len() - i,
{
    if i < line.len() && line[i] != c {
        lemma_find_char_spec(line, c, i + 1);
    }
}

/// The first occurrence of a character is found.
pub proof fn lemma_find_char_exact(line: Seq<char>, c: char, i: int, p: int)
    requires
        0 <= i <= p < line.len(),
        line[p] == c,
        forall|j: int| i <= j < p ==> line[j] != c,
    ensures
        find_char_from(line, c, i) == Some(p),
    decreases p - i,
{
    if i < p {
        lemma_find_char_exact(line, c, i + 1, p);
    }
}

} // verus!

verus! {

/// Trimming drops exactly the leading whitespace run.
pub proof fn lemma_trim_start_skip(s: Seq<char>, k: int)
    requires
        0 <= k <= s.len(),
        forall|j: int| 0 <= j < k ==> is_space(#[trigger] s[j]),
        k == s.len() || !is_space(s[k]),
    ensures
        crate::text::trim_start(s) == s.skip(k),
    decreases k,
{
    if k == 0 {
        assert(s.skip(0) =~= s);
    } else {
        assert(is_space(s[0]));
        lemma_trim_start_skip(s.skip(1), k - 1);
        assert(s.skip(1).skip(k - 1) =~= s.skip(k));
    }
}

/// A sequence with no trailing whitespace trims to itself at the end.
pub proof fn lemma_trim_end_keep(s: Seq<char>)
    requires
        s.len() == 0 || !is_space(s[s.len() - 1]),
    ensures
        crate::text::trim_end(s) == s,
{
}

/// A line with no leading and no trailing whitespace trims to itself.
pub proof fn lemma_trim_id(s: Seq<char>)
    requires
        s.len() > 0,
        !is_space(s[0]),
        !is_space(s[s.len() - 1]),
    ensures
        trim(s) == s,
{
    lemma_trim_start_skip(s, 0);
    assert(s.skip(0) =~= s);
    lemma_trim_end_keep(s);
}

/// Acceptable property names: nonempty, not starting with whitespace or a
/// hash, and free of newlines, colons, semicolons and braces.
pub open spec fn plain_prop(prop: Seq<char>) -> bool {
    &&& prop.len() > 0
    &&& !is_space(prop[0])
    &&& prop[0] != '#'
    &&& forall|i: int|
        0 <= i < prop.len() ==> #[trigger] prop[i] != '\n' && prop[i] != ':' && prop[i] != ';'
            && prop[i] != '{' && prop[i] != '}'
}

/// Acceptable property values: nonempty, not starting with whitespace,
/// and free of newlines, semicolons and braces.
pub open spec fn plain_value(v: Seq<char>) -> bool {
    &&& v.len() > 0
    &&& !is_space(v[0])
    &&& forall|i: int|
        0 <= i < v.len() ==> #[trigger] v[i] != '\n' && v[i] != ';' && v[i] != '{' && v[i]
            != '}'
}

/// Acceptable selector parts: free of newlines and braces.
pub open spec fn plain_sel_part(t: Seq<char>) -> bool {
    forall|i: int| 0 <= i < t.len() ==> #[trigger] t[i] != '\n' && t[i] != '{' && t[i] != '}'
}

/// The written property line trims to its payload and holds the value.
pub proof fn lemma_prop_line(prop: Seq<char>, value: Seq<char>)
    requires
        plain_prop(prop),
        plain_value(value),
    ensures
        trim(prop_line_of(prop, value)) == prop + seq![':', ' '] + value + seq![';'],
        starts_with(trim(prop_line_of(prop, value)), prop),
        prop_value_of(prop_line_of(prop, value)) == value,
        forall|j: int| 0 <= j < prop_line_of(prop, value).len() ==> #[trigger] prop_line_of(
            prop,
            value,
        )[j] != '\n' && prop_line_of(prop, value)[j] != '{' && prop_line_of(prop, value)[j]
            != '}',
    decreases 0int,
{
    let nl = prop_line_of(prop, value);
    let payload = prop + seq![':', ' '] + value + seq![';'];
    assert(nl =~= seq![' ', ' ', ' ', ' '] + payload);
    assert(payload[0] == prop[0]);
    lemma_trim_start_skip(nl, 4);
    assert(nl.skip(4) =~= payload);
    assert(payload[payload.len() - 1] == ';');
    lemma_trim_end_keep(payload);
    assert(trim(nl) == payload);
    assert(payload.take(prop.len() as int) =~= prop);

    // value extraction
    let c: int = prop.len() as int + 4;
    assert(nl[c] == ':');
    assert forall|j: int| 0 <= j < c implies nl[j] != ':' by {
        if j >= 4 {
            assert(nl[j] == prop[j - 4]);
        }
    }
    lemma_find_char_exact(nl, ':', 0, c);
    let after = nl.skip(c + 1);
    assert(after =~= seq![' '] + value + seq![';']);
    lemma_trim_start_skip(after, 1);
    assert(after.skip(1) =~= value + seq![';']);
    lemma_trim_end_keep(value + seq![';']);
    assert(trim(after) == value + seq![';']);
    assert((value + seq![';'])[(value + seq![';']).len() - 1] == ';');
    assert(strip_semi(value + seq![';']) =~= value);

    // character shape
    assert forall|j: int| 0 <= j < nl.len() implies nl[j] != '\n' && nl[j] != '{' && nl[j]
        != '}' by {
        if 4 <= j < 4 + prop.len() {
            assert(nl[j] == prop[j - 4]);
        } else if 4 + prop.len() + 2 <= j < 4 + prop.len() + 2 + value.len() {
            assert(nl[j] == value[j - 4 - prop.len() - 2]);
        }
    }
}

/// Splitting distributes over a newline between two texts.
pub proof fn lemma_lines_concat(a: Seq<char>, b: Seq<char>)
    ensures
        lines_of(a + seq!['\n'] + b) == lines_of(a) + lines_of(b),
    decreases a.len(),
{
    let s = a + seq!['\n'] + b;
    if a.len() == 0 {
        assert(s =~= seq!['\n'] + b);
        assert(s[0] == '\n');
        assert(s.skip(1) =~= b);
        assert(lines_of(s) == seq![Seq::<char>::empty()] + lines_of(b));
        assert(lines_of(a) =~= seq![Seq::<char>::empty()]);
        assert(lines_of(s) =~= lines_of(a) + lines_of(b));
    } else {
        assert(s[0] == a[0]);
        assert(s.skip(1) =~= a.skip(1) + seq!['\n'] + b);
        lemma_lines_concat(a.skip(1), b);
        lemma_lines_of_shape(a.skip(1));
        lemma_lines_of_shape(b);
        let rest = lines_of(s.skip(1));
        assert(rest == lines_of(a.skip(1)) + lines_of(b));
        assert(rest[0] == lines_of(a.skip(1))[0]);
        if a[0] == '\n' {
            assert(lines_of(s) == seq![Seq::<char>::empty()] + rest);
            assert(lines_of(a) == seq![Seq::<char>::empty()] + lines_of(a.skip(1)));
            assert(lines_of(s) =~= lines_of(a) + lines_of(b));
        } else {
            assert(lines_of(s) == seq![seq![s[0]] + rest[0]] + rest.skip(1));
            assert(lines_of(a) == seq![seq![a[0]] + lines_of(a.skip(1))[0]] + lines_of(
                a.skip(1),
            ).skip(1));
            assert(rest.skip(1) =~= lines_of(a.skip(1)).skip(1) + lines_of(b));
            assert(lines_of(s) =~= lines_of(a) + lines_of(b));
        }
    }
}

/// A newline-free text is one line.
pub proof fn lemma_lines_single(l: Seq<char>)
    requires
        forall|i: int| 0 <= i < l.len() ==> #[trigger] l[i] != '\n',
    ensures
        lines_of(l) == seq![l],
    decreases l.len(),
{
    if l.len() == 0 {
        assert(lines_of(l) =~~= seq![l]);
    } else {
        lemma_lines_single(l.skip(1));
        let rest = lines_of(l.skip(1));
        assert(rest == seq![l.skip(1)]);
        assert(seq![l[0]] + l.skip(1) =~= l);
        assert(rest.skip(1) =~= Seq::<Seq<char>>::empty());
        assert(lines_of(l) =~= seq![l]);
    }
}

} // verus!

verus! {

/// True when editing the resolved block cannot disturb its start line:
/// the opening brace stands on the selector line itself, or the edited
/// line (the resolved property line, or the insertion point) is not the
/// line immediately after the start.
pub open spec fn edit_safe(text: Seq<char>, sel: Seq<char>, prop: Seq<char>) -> bool {
    let ls = lines_of(text);
    match find_start_from(ls, sel, 0) {
        None => true,
        Some(s) => has_open(ls[s]) || {
            let e = block_end(ls, s);
            match find_prop_from(ls, prop, s + 1, e) {
                Some(p) => p != s + 1,
                None => e != s + 1,
            }
        },
    }
}

/// True when the resolved block holds at most one line for `prop`.
pub open spec fn single_prop(text: Seq<char>, sel: Seq<char>, prop: Seq<char>) -> bool {
    let ls = lines_of(text);
    match find_start_from(ls, sel, 0) {
        None => true,
        Some(s) => {
            let e = block_end(ls, s);
            match find_prop_from(ls, prop, s + 1, e) {
                None => true,
                Some(p) => find_prop_from(ls, prop, p + 1, e) is None,
            }
        },
    }
}

/// Law: after setting a property to a plain value, reading it yields that
/// value.
#[verifier::rlimit(100)]
#[verifier::spinoff_prover]
pub proof fn lemma_set_then_get(
    text: Seq<char>,
    id: Seq<char>,
    suffix: Seq<char>,
    prop: Seq<char>,
    value: Seq<char>,
)
    requires
        plain_prop(prop),
        plain_value(value),
        plain_sel_part(sel_of(id, suffix)),
        edit_safe(text, sel_of(id, suffix), prop),
    ensures
        css_get(css_set(text, id, suffix, prop, value), id, suffix, prop) == Some(value),
{
    let ls = lines_of(text);
    let sel = sel_of(id, suffix);
    let nl = prop_line_of(prop, value);
    lemma_lines_of_shape(text);
    lemma_prop_line(prop, value);
    lemma_find_start_spec(ls, sel, 0);
    match find_start_from(ls, sel, 0) {
        Some(s) => {
            let e = block_end(ls, s);
            lemma_find_close_spec(ls, s + 1);
            lemma_find_prop_spec(ls, prop, s + 1, e);
            match find_prop_from(ls, prop, s + 1, e) {
                Some(p) => {
                    // overwrite in place
                    let ls2 = ls.update(p, nl);
                    assert(newline_free(ls2)) by {
                        assert forall|i: int, j: int|
                            0 <= i < ls2.len() && 0 <= j < ls2[i].len() implies #[trigger] ls2[i][j]
                            != '\n' by {
                            if i != p {
                                assert(ls2[i] == ls[i]);
                            }
                        }
                    }
                    lemma_lines_unlines(ls2);
                    assert(lines_of(css_set(text, id, suffix, prop, value)) == ls2);
                    assert(is_block_start(ls2, s, sel)) by {
                        assert(ls2[s] == ls[s]);
                        if !has_open(ls[s]) {
                            assert(p != s + 1);
                            assert(ls2[s + 1] == ls[s + 1]);
                        }
                    }
                    assert forall|j: int| 0 <= j < s implies !is_block_start(ls2, j, sel) by {
                        assert(ls2[j] == ls[j]);
                        assert(ls2[j + 1] == ls[j + 1]);
                        assert(!is_block_start(ls, j, sel));
                    }
                    lemma_find_start_exact(ls2, sel, 0, s);
                    // the block end is unchanged
                    assert(block_end(ls2, s) == e) by {
                        if e < ls.len() {
                            assert(has_close(ls2[e]));
                            assert forall|j: int| s + 1 <= j < e implies !has_close(
                                ls2[j],
                            ) by {
                                if j != p {
                                    assert(ls2[j] == ls[j]);
                                }
                            }
                            lemma_find_close_exact(ls2, s + 1, e);
                        } else {
                            assert forall|j: int|
                                s + 1 <= j < ls2.len() implies !has_close(ls2[j]) by {
                                if j != p {
                                    assert(ls2[j] == ls[j]);
                                }
                            }
                            lemma_find_close_none(ls2, s + 1);
                        }
                    }
                    // the property line is found at the same place
                    assert forall|j: int| s + 1 <= j < p implies !starts_with(
                        trim(ls2[j]),
                        prop,
                    ) by {
                        assert(ls2[j] == ls[j]);
                    }
                    lemma_find_prop_exact(ls2, prop, s + 1, e, p);
                    assert(prop_value_of(ls2[p]) == value);
                },
                None => {
                    // insert before the closing line
                    let ls2 = ls.insert(e, nl);
                    assert(newline_free(ls2)) by {
                        assert forall|i: int, j: int|
                            0 <= i < ls2.len() && 0 <= j < ls2[i].len() implies #[trigger] ls2[i][j]
                            != '\n' by {
                            if i < e {
                                assert(ls2[i] == ls[i]);
                            } else if i > e {
                                assert(ls2[i] == ls[i - 1]);
                            }
                        }
                    }
                    lemma_lines_unlines(ls2);
                    assert(lines_of(css_set(text, id, suffix, prop, value)) == ls2);
                    assert(is_block_start(ls2, s, sel)) by {
                        assert(ls2[s] == ls[s]);
                        if !has_open(ls[s]) {
                            assert(e != s + 1);
                            assert(ls2[s + 1] == ls[s + 1]);
                        }
                    }
                    assert forall|j: int| 0 <= j < s implies !is_block_start(ls2, j, sel) by {
                        assert(ls2[j] == ls[j]);
                        assert(ls2[j + 1] == ls[j + 1]);
                        assert(!is_block_start(ls, j, sel));
                    }
                    lemma_find_start_exact(ls2, sel, 0, s);
                    // the block now ends one line later
                    assert(block_end(ls2, s) == e + 1) by {
                        if e < ls.len() {
                            assert(ls2[e + 1] == ls[e]);
                            assert(has_close(ls2[e + 1]));
                            assert forall|j: int| s + 1 <= j < e + 1 implies !has_close(
                                ls2[j],
                            ) by {
                                if j < e {
                                    assert(ls2[j] == ls[j]);
                                }
                            }
                            lemma_find_close_exact(ls2, s + 1, e + 1);
                        } else {
                            assert forall|j: int|
                                s + 1 <= j < ls2.len() implies !has_close(ls2[j]) by {
                                if j < e {
                                    assert(ls2[j] == ls[j]);
                                }
                            }
                            lemma_find_close_none(ls2, s + 1);
                        }
                    }
                    // the inserted line is the first property line
                    assert forall|j: int| s + 1 <= j < e implies !starts_with(
                        trim(ls2[j]),
                        prop,
                    ) by {
                        assert(ls2[j] == ls[j]);
                    }
                    assert(ls2[e] == nl);
                    lemma_find_prop_exact(ls2, prop, s + 1, e + 1, e);
                    assert(prop_value_of(ls2[e]) == value);
                },
            }
        },
        None => {
            // append a fresh block at the end of the text
            let text2 = text + new_block_of(sel, prop, value);
            let blk0 = sel + seq![' ', '{'];
            let closeline = seq!['}'];
            assert(text2 =~= text + seq!['\n'] + (blk0 + seq!['\n'] + (nl + seq!['\n']
                + closeline)));
            lemma_lines_concat(text, blk0 + seq!['\n'] + (nl + seq!['\n'] + closeline));
            lemma_lines_concat(blk0, nl + seq!['\n'] + closeline);
            lemma_lines_concat(nl, closeline);
            assert forall|i: int| 0 <= i < blk0.len() implies #[trigger] blk0[i] != '\n' by {
                if i < sel.len() {
                    assert(blk0[i] == sel[i]);
                }
            }
            lemma_lines_single(blk0);
            lemma_lines_single(nl);
            lemma_lines_single(closeline);
            let ls2 = lines_of(text2);
            let n = ls.len() as int;
            assert(ls2 =~= ls + seq![blk0, nl, closeline]);
            assert(ls2.len() == n + 3);
            // the selector line of the new block
            assert(trim(blk0) == blk0) by {
                assert(blk0[0] == '#');
                assert(blk0[blk0.len() - 1] == '{');
                lemma_trim_id(blk0);
            }
            assert(starts_with(trim(blk0), sel)) by {
                assert(blk0.take(sel.len() as int) =~= sel);
            }
            assert(has_open(ls2[n])) by {
                assert(ls2[n][blk0.len() - 1] == '{');
            }
            assert(is_block_start(ls2, n, sel));
            // no line of the old text, except possibly the last, starts a
            // block now; the last can only match through the new brace line
            assert forall|j: int| 0 <= j < n - 1 implies !is_block_start(ls2, j, sel) by {
                assert(ls2[j] == ls[j]);
                assert(ls2[j + 1] == ls[j + 1]);
                assert(!is_block_start(ls, j, sel));
            }
            let s2 = find_start_from(ls2, sel, 0)->Some_0;
            assert(find_start_from(ls2, sel, 0) is Some) by {
                lemma_find_start_spec(ls2, sel, 0);
                if find_start_from(ls2, sel, 0) is None {
                    assert(!is_block_start(ls2, n, sel));
                }
            }
            lemma_find_start_spec(ls2, sel, 0);
            assert(n - 1 <= s2 <= n);
            // the block ends at the new closing line
            assert(!has_close(ls2[n])) by {
                assert forall|i: int| 0 <= i < blk0.len() implies #[trigger] blk0[i] != '}' by {
                    if i < sel.len() {
                        assert(blk0[i] == sel[i]);
                    }
                }
            }
            assert(!has_close(ls2[n + 1]));
            assert(has_close(ls2[n + 2])) by {
                assert(ls2[n + 2][0] == '}');
            }
            assert(block_end(ls2, s2) == n + 2) by {
                assert(forall|j: int| s2 + 1 <= j < n + 2 ==> !has_close(#[trigger] ls2[j]));
                lemma_find_close_exact(ls2, s2 + 1, n + 2);
            }
            // the property is found on the written line
            assert(!starts_with(trim(blk0), prop)) by {
                assert(trim(blk0)[0] == '#');
                if starts_with(trim(blk0), prop) {
                    assert(trim(blk0).take(prop.len() as int)[0] == prop[0]);
                }
            }
            assert forall|j: int| s2 + 1 <= j < n + 1 implies !starts_with(
                trim(ls2[j]),
                prop,
            ) by {
                if j == n {
                    assert(ls2[j] == blk0);
                }
            }
            assert(starts_with(trim(ls2[n + 1]), prop));
            lemma_find_prop_exact(ls2, prop, s2 + 1, n + 2, n + 1);
            assert(prop_value_of(ls2[n + 1]) == value);
        },
    }
}

} // verus!

verus! {

/// Law: after setting a property to the empty value (removal), reading it
/// yields nothing.
#[verifier::rlimit(100)]
#[verifier::spinoff_prover]
pub proof fn lemma_clear_then_get(
    text: Seq<char>,
    id: Seq<char>,
    suffix: Seq<char>,
    prop: Seq<char>,
)
    requires
        plain_prop(prop),
        plain_sel_part(sel_of(id, suffix)),
        edit_safe(text, sel_of(id, suffix), prop),
        single_prop(text, sel_of(id, suffix), prop),
    ensures
        css_get(css_set(text, id, suffix, prop, Seq::empty()), id, suffix, prop) is None,
{
    let ls = lines_of(text);
    let sel = sel_of(id, suffix);
    lemma_lines_of_shape(text);
    lemma_find_start_spec(ls, sel, 0);
    match find_start_from(ls, sel, 0) {
        None => {
            assert(css_set(text, id, suffix, prop, Seq::empty()) == text);
        },
        Some(s) => {
            let e = block_end(ls, s);
            lemma_find_close_spec(ls, s + 1);
            lemma_find_prop_spec(ls, prop, s + 1, e);
            match find_prop_from(ls, prop, s + 1, e) {
                None => {
                    assert(css_set(text, id, suffix, prop, Seq::empty()) == text);
                },
                Some(p) => {
                    lemma_find_prop_spec(ls, prop, p + 1, e);
                    let ls2 = ls.remove(p);
                    assert(ls2.len() == ls.len() - 1);
                    assert(ls2.len() >= 1);
                    assert(newline_free(ls2)) by {
                        assert forall|i: int, j: int|
                            0 <= i < ls2.len() && 0 <= j < ls2[i].len() implies #[trigger] ls2[i][j]
                            != '\n' by {
                            if i < p {
                                assert(ls2[i] == ls[i]);
                            } else {
                                assert(ls2[i] == ls[i + 1]);
                            }
                        }
                    }
                    lemma_lines_unlines(ls2);
                    assert(lines_of(css_set(text, id, suffix, prop, Seq::empty())) == ls2);
                    assert(is_block_start(ls2, s, sel)) by {
                        assert(ls2[s] == ls[s]);
                        if !has_open(ls[s]) {
                            assert(p != s + 1);
                            assert(ls2[s + 1] == ls[s + 1]);
                            assert(s + 1 < ls2.len());
                        }
                    }
                    assert forall|j: int| 0 <= j < s implies !is_block_start(ls2, j, sel) by {
                        assert(ls2[j] == ls[j]);
                        assert(ls2[j + 1] == ls[j + 1]);
                        assert(!is_block_start(ls, j, sel));
                    }
                    lemma_find_start_exact(ls2, sel, 0, s);
                    // the block now ends one line earlier
                    assert(block_end(ls2, s) == e - 1) by {
                        if e < ls.len() {
                            assert(ls2[e - 1] == ls[e]);
                            assert(has_close(ls2[e - 1]));
                            assert forall|j: int| s + 1 <= j < e - 1 implies !has_close(
                                ls2[j],
                            ) by {
                                if j < p {
                                    assert(ls2[j] == ls[j]);
                                } else {
                                    assert(ls2[j] == ls[j + 1]);
                                }
                            }
                            lemma_find_close_exact(ls2, s + 1, e - 1);
                        } else {
                            assert forall|j: int|
                                s + 1 <= j < ls2.len() implies !has_close(ls2[j]) by {
                                if j < p {
                                    assert(ls2[j] == ls[j]);
                                } else {
                                    assert(ls2[j] == ls[j + 1]);
                                }
                            }
                            lemma_find_close_none(ls2, s + 1);
                        }
                    }
                    // no property line is left inside the block
                    assert forall|j: int| s + 1 <= j < e - 1 implies !starts_with(
                        trim(ls2[j]),
                        prop,
                    ) by {
                        if j < p {
                            assert(ls2[j] == ls[j]);
                        } else {
                            assert(ls2[j] == ls[j + 1]);
                        }
                    }
                    lemma_find_prop_none(ls2, prop, s + 1, e - 1);
                },
            }
        },
    }
}

} // verus!

verus! {

/// Trimming drops exactly the trailing whitespace run.
pub proof fn lemma_trim_end_take(s: Seq<char>, b: int)
    requires
        0 <= b <= s.len(),
        forall|j: int| b <= j < s.len() ==> is_space(#[trigger] s[j]),
        b == 0 || !is_space(s[b - 1]),
    ensures
        crate::text::trim_end(s) == s.take(b),
    decreases s.len(),
{
    if b == s.len() {
        assert(s.take(b) =~= s);
    } else {
        assert(is_space(s[s.len() - 1]));
        lemma_trim_end_take(s.take(s.len() - 1), b);
        assert(s.take(s.len() - 1).take(b) =~= s.take(b));
    }
}

/// The models of a vector of lines.
pub open spec fn line_views(ls: Seq<Vec<char>>) -> Seq<Seq<char>> {
    ls.map_values(|l: Vec<char>| l@)
}

/// Split text into lines at newlines.
pub fn split_lines(t: &Vec<char>) -> (r: Vec<Vec<char>>)
    ensures
        line_views(r@) == lines_of(t@),
{
    let mut out: Vec<Vec<char>> = Vec::new();
    let mut cur: Vec<char> = Vec::new();
    let mut i: usize = 0;
    proof {
        assert(t@.skip(0) =~= t@);
    }
    while i < t.len()
        invariant
            i <= t.len(),
            lines_of(t@) == line_views(out@) + seq![cur@ + lines_of(t@.skip(i as int))[0]]
                + lines_of(t@.skip(i as int)).skip(1),
        decreases t.len() - i,
    {
        let c = t[i];
        proof {
            assert(t@.skip(i as int)[0] == t@[i as int]);
            assert(t@.skip(i as int).skip(1) =~= t@.skip(i + 1));
            lemma_lines_of_shape(t@.skip(i + 1));
        }
        if c == '\n' {
            let ghost curv = cur@;
            let done = cur;
            out.push(done);
            cur = Vec::new();
            proof {
                assert(curv + Seq::<char>::empty() =~= curv);
                assert(lines_of(t@.skip(i as int)) == seq![Seq::<char>::empty()] + lines_of(
                    t@.skip(i + 1),
                ));
                assert(lines_of(t@.skip(i as int))[0] =~= Seq::<char>::empty());
                assert(lines_of(t@.skip(i as int)).skip(1) =~= lines_of(t@.skip(i + 1)));
                assert(line_views(out@) =~= line_views(out@.drop_last()) + seq![curv]);
                assert(lines_of(t@) =~= line_views(out@) + seq![cur@ + lines_of(
                    t@.skip(i + 1),
                )[0]] + lines_of(t@.skip(i + 1)).skip(1));
            }
        } else {
            let ghost curv = cur@;
            cur.push(c);
            proof {
                let rest = lines_of(t@.skip(i + 1));
                assert(lines_of(t@.skip(i as int)) == seq![seq![t@[i as int]] + rest[0]]
                    + rest.skip(1));
                assert(lines_of(t@.skip(i as int))[0] == seq![c] + rest[0]);
                assert(lines_of(t@.skip(i as int)).skip(1) =~= rest.skip(1));
                assert(curv + (seq![c] + rest[0]) =~= cur@ + rest[0]);
                assert(lines_of(t@) =~= line_views(out@) + seq![cur@ + rest[0]] + rest.skip(
                    1,
                ));
            }
        }
        i += 1;
    }
    proof {
        assert(t@.skip(i as int).len() == 0);
        assert(lines_of(t@.skip(i as int)) == seq![Seq::<char>::empty()]);
        assert(lines_of(t@.skip(i as int))[0] =~= Seq::<char>::empty());
    }
    let ghost curv = cur@;
    out.push(cur);
    proof {
        assert(line_views(out@) =~= line_views(out@.drop_last()) + seq![curv]);
        assert(curv + Seq::<char>::empty() =~= curv);
        assert(lines_of(t@.skip(t@.len() as int)).skip(1) =~= Seq::<Seq<char>>::empty());
        assert(line_views(out@) =~= lines_of(t@));
    }
    out
}

/// Joining distributes over appending one line.
pub proof fn lemma_unlines_push(s: Seq<Seq<char>>, x: Seq<char>)
    ensures
        unlines(s.push(x)) == if s.len() == 0 {
            x
        } else {
            unlines(s) + seq!['\n'] + x
        },
    decreases s.len(),
{
    let sp = s.push(x);
    if s.len() == 0 {
        assert(sp[0] == x);
    } else if s.len() == 1 {
        assert(sp[0] == s[0]);
        assert(sp.skip(1) =~= seq![x]);
        assert(unlines(seq![x]) == x);
        assert(unlines(sp) =~= unlines(s) + seq!['\n'] + x);
    } else {
        assert(sp[0] == s[0]);
        assert(sp.skip(1) =~= s.skip(1).push(x));
        lemma_unlines_push(s.skip(1), x);
        assert(unlines(sp) =~= unlines(s) + seq!['\n'] + x);
    }
}

/// Join lines with newlines.
pub fn join_lines(ls: &Vec<Vec<char>>) -> (r: Vec<char>)
    ensures
        r@ == unlines(line_views(ls@)),
{
    let ghost model = line_views(ls@);
    let mut out: Vec<char> = Vec::new();
    let mut i: usize = 0;
    proof {
        assert(model.take(0) =~= Seq::<Seq<char>>::empty());
    }
    while i < ls.len()
        invariant
            i <= ls.len(),
            model == line_views(ls@),
            model.len() == ls@.len(),
            out@ == unlines(model.take(i as int)),
        decreases ls.len() - i,
    {
        if i > 0 {
            out.push('\n');
        }
        crate::text::append_text(&mut out, &ls[i]);
        proof {
            lemma_unlines_push(model.take(i as int), model[i as int]);
            assert(model.take(i + 1) =~= model.take(i as int).push(model[i as int]));
        }
        i += 1;
    }
    proof {
        assert(model.take(model.len() as int) =~= model);
        if ls@.len() == 0 {
            assert(out@ =~= unlines(model));
        }
    }
    out
}

/// The bounds of the trimmed content of a line: the index of its first
/// non-whitespace character and one past its last.
pub(crate) fn trim_bounds(line: &Vec<char>) -> (r: (usize, usize))
    ensures
        r.0 <= r.1 <= line.len(),
        trim(line@) == line@.subrange(r.0 as int, r.1 as int),
{
    let mut a: usize = 0;
    while a < line.len() && (line[a] == ' ' || line[a] == '\t' || line[a] == '\r')
        invariant
            a <= line.len(),
            forall|j: int| 0 <= j < a ==> is_space(#[trigger] line@[j]),
        decreases line.len() - a,
    {
        a += 1;
    }
    if a == line.len() {
        proof {
            lemma_trim_start_skip(line@, a as int);
            assert(line@.skip(a as int).len() == 0);
            lemma_trim_end_keep(line@.skip(a as int));
            assert(line@.subrange(a as int, a as int) =~= line@.skip(a as int));
        }
        return (a, a);
    }
    let mut b: usize = line.len();
    while b > a && (line[b - 1] == ' ' || line[b - 1] == '\t' || line[b - 1] == '\r')
        invariant
            a <= b <= line.len(),
            forall|j: int| b <= j < line.len() ==> is_space(#[trigger] line@[j]),
        decreases b,
    {
        b -= 1;
    }
    proof {
        assert(!is_space(line@[a as int]));
        assert(b > a);
        assert(!is_space(line@[b - 1]));
        lemma_trim_start_skip(line@, a as int);
        let t1 = line@.skip(a as int);
        lemma_trim_end_take(t1, b - a);
        assert(t1.take(b - a) =~= line@.subrange(a as int, b as int));
    }
    (a, b)
}

/// True when the trimmed line starts with `pre`.
fn trim_starts_with(line: &Vec<char>, pre: &Vec<char>) -> (r: bool)
    ensures
        r == starts_with(trim(line@), pre@),
{
    let (a, b) = trim_bounds(line);
    if b - a < pre.len() {
        return false;
    }
    let mut k: usize = 0;
    while k < pre.len()
        invariant
            k <= pre.len(),
            pre.len() <= b - a,
            a <= b <= line.len(),
            trim(line@) == line@.subrange(a as int, b as int),
            forall|j: int| 0 <= j < k ==> trim(line@)[j] == pre@[j],
        decreases pre.len() - k,
    {
        if line[a + k] != pre[k] {
            proof {
                assert(trim(line@)[k as int] == line@[a + k]);
                if starts_with(trim(line@), pre@) {
                    assert(trim(line@).take(pre@.len() as int)[k as int] == pre@[k as int]);
                }
            }
            return false;
        }
        proof {
            assert(trim(line@)[k as int] == line@[a + k]);
        }
        k += 1;
    }
    proof {
        assert(trim(line@).take(pre@.len() as int) =~= pre@);
    }
    true
}

/// True when the line contains the character.
fn line_has(line: &Vec<char>, c: char) -> (r: bool)
    ensures
        r == exists|i: int| 0 <= i < line@.len() && line@[i] == c,
{
    let mut i: usize = 0;
    while i < line.len()
        invariant
            i <= line.len(),
            forall|j: int| 0 <= j < i ==> line@[j] != c,
        decreases line.len() - i,
    {
        if line[i] == c {
            return true;
        }
        i += 1;
    }
    false
}

/// The selector text for an identifier and a suffix.
pub fn sel_text(id: &Vec<char>, suffix: &Vec<char>) -> (r: Vec<char>)
    ensures
        r@ == sel_of(id@, suffix@),
{
    let mut out: Vec<char> = Vec::new();
    out.push('#');
    let mut i: usize = 0;
    while i < id.len()
        invariant
            i <= id.len(),
            out@.len() == 1 + i,
            out@[0] == '#',
            forall|j: int| #![trigger out@[j]] 1 <= j < 1 + i ==> out@[j] == dashed(id@)[j - 1],
        decreases id.len() - i,
    {
        let c = id[i];
        if c == '/' {
            out.push('-');
        } else {
            out.push(c);
        }
        i += 1;
    }
    crate::text::append_text(&mut out, suffix);
    proof {
        assert(out@ =~= sel_of(id@, suffix@));
    }
    out
}

/// The first block-start line for `sel`, if any.
fn find_start_idx(ls: &Vec<Vec<char>>, sel: &Vec<char>) -> (r: Option<usize>)
    ensures
        match find_start_from(line_views(ls@), sel@, 0) {
            Some(s) => r.is_some() && r->0 == s,
            None => r.is_none(),
        },
{
    let ghost model = line_views(ls@);
    let mut i: usize = 0;
    while i < ls.len()
        invariant
            i <= ls.len(),
            model == line_views(ls@),
            model.len() == ls@.len(),
            forall|j: int| 0 <= j < i ==> !is_block_start(model, j, sel@),
        decreases ls.len() - i,
    {
        let here = trim_starts_with(&ls[i], sel) && (line_has(&ls[i], '{') || (i + 1 < ls.len()
            && line_has(&ls[i + 1], '{')));
        if here {
            proof {
                assert(is_block_start(model, i as int, sel@));
                lemma_find_start_exact(model, sel@, 0, i as int);
            }
            return Some(i);
        }
        proof {
            assert(!is_block_start(model, i as int, sel@));
        }
        i += 1;
    }
    proof {
        lemma_find_start_none(model, sel@, 0);
    }
    None
}

/// The first closing line at or after `from`, if any.
fn find_close_idx(ls: &Vec<Vec<char>>, from: usize) -> (r: Option<usize>)
    ensures
        match find_close_from(line_views(ls@), from as int) {
            Some(s) => r.is_some() && r->0 == s,
            None => r.is_none(),
        },
{
    let ghost model = line_views(ls@);
    let mut i: usize = from;
    if from > ls.len() {
        return None;
    }
    while i < ls.len()
        invariant
            from <= i <= ls.len(),
            model == line_views(ls@),
            model.len() == ls@.len(),
            forall|j: int| from <= j < i ==> !has_close(#[trigger] model[j]),
        decreases ls.len() - i,
    {
        if line_has(&ls[i], '}') {
            proof {
                lemma_find_close_exact(model, from as int, i as int);
            }
            return Some(i);
        }
        i += 1;
    }
    proof {
        lemma_find_close_none(model, from as int);
    }
    None
}

/// The first property line in `[from, end)`, if any.
fn find_prop_idx(ls: &Vec<Vec<char>>, prop: &Vec<char>, from: usize, end: usize) -> (r: Option<
    usize,
>)
    requires
        end <= ls@.len(),
    ensures
        match find_prop_from(line_views(ls@), prop@, from as int, end as int) {
            Some(p) => r.is_some() && r->0 == p,
            None => r.is_none(),
        },
{
    let ghost model = line_views(ls@);
    let mut i: usize = from;
    if from >= end {
        proof {
            lemma_find_prop_spec(model, prop@, from as int, end as int);
        }
        return None;
    }
    while i < end
        invariant
            from <= i <= end <= ls@.len(),
            model == line_views(ls@),
            model.len() == ls@.len(),
            forall|j: int| from <= j < i ==> !starts_with(trim(#[trigger] model[j]), prop@),
        decreases end - i,
    {
        if trim_starts_with(&ls[i], prop) {
            proof {
                lemma_find_prop_exact(model, prop@, from as int, end as int, i as int);
            }
            return Some(i);
        }
        i += 1;
    }
    proof {
        lemma_find_prop_none(model, prop@, from as int, end as int);
    }
    None
}

/// The value of a property line.
fn prop_value_text(line: &Vec<char>) -> (r: Vec<char>)
    ensures
        r@ == prop_value_of(line@),
{
    let mut c: usize = 0;
    while c < line.len() && line[c] != ':'
        invariant
            c <= line.len(),
            forall|j: int| 0 <= j < c ==> line@[j] != ':',
        decreases line.len() - c,
    {
        c += 1;
    }
    if c == line.len() {
        proof {
            lemma_find_char_spec(line@, ':', 0);
            if find_char_from(line@, ':', 0) is Some {
                assert(false);
            }
        }
        return Vec::new();
    }
    proof {
        lemma_find_char_exact(line@, ':', 0, c as int);
    }
    let mut rest: Vec<char> = Vec::new();
    let mut i: usize = c + 1;
    while i < line.len()
        invariant
            c + 1 <= i <= line.len(),
            rest@ == line@.subrange(c + 1, i as int),
        decreases line.len() - i,
    {
        rest.push(line[i]);
        proof {
            assert(rest@ =~= line@.subrange(c + 1, i + 1));
        }
        i += 1;
    }
    proof {
        assert(rest@ =~= line@.skip(c + 1));
    }
    let (a, b) = trim_bounds(&rest);
    let mut out: Vec<char> = Vec::new();
    let mut k: usize = a;
    let stop: usize = if b > a && rest[b - 1] == ';' {
        b - 1
    } else {
        b
    };
    while k < stop
        invariant
            a <= k <= stop <= rest.len(),
            out@ == rest@.subrange(a as int, k as int),
        decreases stop - k,
    {
        out.push(rest[k]);
        proof {
            assert(out@ =~= rest@.subrange(a as int, k + 1));
        }
        k += 1;
    }
    proof {
        let tr = trim(rest@);
        assert(tr == rest@.subrange(a as int, b as int));
        if b > a && rest@[b - 1] == ';' {
            assert(tr[tr.len() - 1] == ';');
            assert(strip_semi(tr) =~= rest@.subrange(a as int, b - 1));
            assert(out@ =~= strip_semi(tr));
        } else {
            if tr.len() > 0 {
                assert(tr[tr.len() - 1] == rest@[b - 1]);
            }
            assert(strip_semi(tr) == tr);
            assert(out@ =~= tr);
        }
    }
    out
}

/// The written property line, executable.
fn prop_line_text(prop: &Vec<char>, value: &Vec<char>) -> (r: Vec<char>)
    ensures
        r@ == prop_line_of(prop@, value@),
{
    let mut out: Vec<char> = Vec::new();
    out.push(' ');
    out.push(' ');
    out.push(' ');
    out.push(' ');
    crate::text::append_text(&mut out, prop);
    out.push(':');
    out.push(' ');
    crate::text::append_text(&mut out, value);
    out.push(';');
    proof {
        assert(out@ =~= prop_line_of(prop@, value@));
    }
    out
}

/// Read one property of one selector block.
pub fn get(text: &Vec<char>, id: &Vec<char>, suffix: &Vec<char>, prop: &Vec<char>) -> (r: Option<
    Vec<char>,
>)
    ensures
        match css_get(text@, id@, suffix@, prop@) {
            Some(v) => r.is_some() && r->0@ == v,
            None => r.is_none(),
        },
{
    let ls = split_lines(text);
    let sel = sel_text(id, suffix);
    let s = match find_start_idx(&ls, &sel) {
        Some(s) => s,
        None => {
            return None;
        },
    };
    proof {
        lemma_find_start_spec(line_views(ls@), sel@, 0);
    }
    let e = match find_close_idx(&ls, s + 1) {
        Some(j) => j,
        None => ls.len(),
    };
    proof {
        lemma_find_close_spec(line_views(ls@), s + 1);
        assert(e as int == block_end(line_views(ls@), s as int));
    }
    let p = match find_prop_idx(&ls, prop, s + 1, e) {
        Some(p) => p,
        None => {
            return None;
        },
    };
    proof {
        lemma_find_prop_spec(line_views(ls@), prop@, s + 1, e as int);
    }
    Some(prop_value_text(&ls[p]))
}

/// Write, overwrite or delete one property of one selector block.
pub fn set(
    text: &Vec<char>,
    id: &Vec<char>,
    suffix: &Vec<char>,
    prop: &Vec<char>,
    value: &Vec<char>,
) -> (r: Vec<char>)
    ensures
        r@ == css_set(text@, id@, suffix@, prop@, value@),
{
    let mut ls = split_lines(text);
    let sel = sel_text(id, suffix);
    let found = find_start_idx(&ls, &sel);
    if value.len() == 0 {
        let s = match found {
            Some(s) => s,
            None => {
                return crate::json::copy_text(text);
            },
        };
        let n = ls.len();
        proof {
            lemma_find_start_spec(line_views(ls@), sel@, 0);
            assert((s as int) < line_views(ls@).len());
            assert(s < n);
        }
        let e = match find_close_idx(&ls, s + 1) {
            Some(j) => j,
            None => ls.len(),
        };
        proof {
            lemma_find_close_spec(line_views(ls@), s + 1);
        }
        let p = match find_prop_idx(&ls, prop, s + 1, e) {
            Some(p) => p,
            None => {
                return crate::json::copy_text(text);
            },
        };
        proof {
            lemma_find_prop_spec(line_views(ls@), prop@, s + 1, e as int);
        }
        let ghost before = line_views(ls@);
        ls.remove(p);
        proof {
            assert(line_views(ls@) =~= before.remove(p as int));
        }
        join_lines(&ls)
    } else {
        match found {
            None => {
                let mut out = crate::json::copy_text(text);
                out.push('\n');
                crate::text::append_text(&mut out, &sel);
                out.push(' ');
                out.push('{');
                out.push('\n');
                let pl = prop_line_text(prop, value);
                crate::text::append_text(&mut out, &pl);
                out.push('\n');
                out.push('}');
                proof {
                    assert(out@ =~= text@ + new_block_of(sel@, prop@, value@));
                }
                out
            },
            Some(s) => {
                let n = ls.len();
                proof {
                    lemma_find_start_spec(line_views(ls@), sel@, 0);
                    assert((s as int) < line_views(ls@).len());
                    assert(s < n);
                }
                let e = match find_close_idx(&ls, s + 1) {
                    Some(j) => j,
                    None => ls.len(),
                };
                proof {
                    lemma_find_close_spec(line_views(ls@), s + 1);
                }
                let nl = prop_line_text(prop, value);
                match find_prop_idx(&ls, prop, s + 1, e) {
                    Some(p) => {
                        proof {
                            lemma_find_prop_spec(line_views(ls@), prop@, s + 1, e as int);
                        }
                        let ghost before = line_views(ls@);
                        let ghost nlv = nl@;
                        ls.set(p, nl);
                        proof {
                            assert(line_views(ls@) =~= before.update(p as int, nlv));
                        }
                        join_lines(&ls)
                    },
                    None => {
                        let ghost before = line_views(ls@);
                        let ghost nlv = nl@;
                        ls.insert(e, nl);
                        proof {
                            assert(line_views(ls@) =~= before.insert(e as int, nlv));
                        }
                        join_lines(&ls)
                    },
                }
            },
        }
    }
}

} // verus!

verus! {

/// True when `pat` occurs in `s` at position `i`.
pub open spec fn contains_at(s: Seq<char>, pat: Seq<char>, i: int) -> bool {
    0 <= i && i + pat.len() <= s.len() && s.subrange(i, i + pat.len()) == pat
}

/// True when `pat` occurs somewhere in `s`.
pub open spec fn contains_text(s: Seq<char>, pat: Seq<char>) -> bool {
    exists|i: int| contains_at(s, pat, i)
}

/// The name of the first keyframe block, used as the presence sentinel.
pub open spec fn keyframes_sentinel() -> Seq<char> {
    "@keyframes blink-warning"@
}

/// The rest of the keyframe library following the sentinel.
pub open spec fn keyframes_body() -> Seq<char> {
    " {\n    70% {\n        color: @bar_fg;\n    }\n    to {\n        color: @bar_fg;\n        background-color: orange;\n    }\n}\n@keyframes blink-critical {\n    70% {\n        color: @bar_fg;\n    }\n    to {\n        color: @bar_fg;\n        background-color: red;\n    }\n}"@
}

/// The fixed keyframe library.
pub open spec fn keyframes_library() -> Seq<char> {
    keyframes_sentinel() + keyframes_body()
}

/// The text with the keyframe library guaranteed present: unchanged when
/// the sentinel occurs, else with the library appended once.
pub open spec fn ensure_keyframes_of(t: Seq<char>) -> Seq<char> {
    if contains_text(t, keyframes_sentinel()) {
        t
    } else {
        t + seq!['\n'] + keyframes_library()
    }
}

/// True when `pat` occurs in `t`.
pub fn contains(t: &Vec<char>, pat: &Vec<char>) -> (r: bool)
    ensures
        r == contains_text(t@, pat@),
{
    if pat.len() > t.len() {
        proof {
            assert forall|i: int| !contains_at(t@, pat@, i) by {}
        }
        return false;
    }
    if pat.len() == 0 {
        proof {
            assert(t@.subrange(0, 0) =~= pat@);
            assert(contains_at(t@, pat@, 0));
        }
        return true;
    }
    let mut i: usize = 0;
    while i <= t.len() - pat.len()
        invariant
            0 < pat.len() <= t.len(),
            i <= t.len() - pat.len() + 1,
            forall|j: int| 0 <= j < i ==> !contains_at(t@, pat@, j),
        decreases t.len() - pat.len() + 1 - i,
    {
        let mut k: usize = 0;
        let mut hit = true;
        while k < pat.len()
            invariant
                hit ==> forall|m: int| 0 <= m < k ==> t@[i + m] == pat@[m],
                !hit ==> !contains_at(t@, pat@, i as int),
                k <= pat.len(),
                i + pat.len() <= t.len(),
            decreases pat.len() - k,
        {
            if t[i + k] != pat[k] {
                hit = false;
                proof {
                    assert(t@.subrange(i as int, i + pat@.len())[k as int] != pat@[k as int]);
                    assert(!contains_at(t@, pat@, i as int));
                }
                k = pat.len();
            } else {
                k += 1;
            }
        }
        if hit {
            proof {
                assert(t@.subrange(i as int, i + pat@.len()) =~= pat@);
                assert(contains_at(t@, pat@, i as int));
            }
            return true;
        }
        proof {
            if contains_at(t@, pat@, i as int) {
                assert(t@.subrange(i as int, i + pat@.len()) == pat@);
            }
        }
        i += 1;
    }
    proof {
        assert forall|j: int| !contains_at(t@, pat@, j) by {
            if 0 <= j <= t@.len() - pat@.len() {
                assert(!contains_at(t@, pat@, j));
            }
        }
    }
    false
}

/// Ensure the keyframe library is present, appending it once if absent.
pub fn ensure_keyframes(text: &Vec<char>) -> (r: Vec<char>)
    ensures
        r@ == ensure_keyframes_of(text@),
{
    let sentinel = crate::text::text_of("@keyframes blink-warning");
    if contains(text, &sentinel) {
        crate::json::copy_text(text)
    } else {
        let mut out = crate::json::copy_text(text);
        out.push('\n');
        crate::text::append_text(&mut out, &sentinel);
        let body = crate::text::text_of(
            " {\n    70% {\n        color: @bar_fg;\n    }\n    to {\n        color: @bar_fg;\n        background-color: orange;\n    }\n}\n@keyframes blink-critical {\n    70% {\n        color: @bar_fg;\n    }\n    to {\n        color: @bar_fg;\n        background-color: red;\n    }\n}",
        );
        crate::text::append_text(&mut out, &body);
        proof {
            assert(out@ =~= ensure_keyframes_of(text@));
        }
        out
    }
}

/// Law: ensuring the keyframe library twice is the same as ensuring it
/// once.
pub proof fn lemma_ensure_keyframes_idempotent(t: Seq<char>)
    ensures
        ensure_keyframes_of(ensure_keyframes_of(t)) == ensure_keyframes_of(t),
{
    let sent = keyframes_sentinel();
    if !contains_text(t, sent) {
        let t2 = ensure_keyframes_of(t);
        assert(t2 == t + seq!['\n'] + keyframes_library());
        let pos: int = t.len() as int + 1;
        assert(t2.subrange(pos, pos + sent.len()) =~= sent);
        assert(contains_at(t2, sent, pos));
    }
}

} // verus!

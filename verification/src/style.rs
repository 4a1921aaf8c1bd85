//! Style variables: an ordered name/value mapping parsed from a
//! line-oriented variables file, written back as color definitions and a
//! block of custom properties, and merged with extracted color roles.

use vstd::prelude::*;

use crate::text::{is_space, trim, starts_with};
use crate::css::lines_of;
use crate::json::{JsonData, JsonValue, obj_get};

verus! {

/// The ordered variable list with `name` bound to `value`: replaced in
/// place when present, appended when absent.
pub open spec fn vars_upsert(
    vars: Seq<(Seq<char>, Seq<char>)>,
    name: Seq<char>,
    value: Seq<char>,
) -> Seq<(Seq<char>, Seq<char>)>
    decreases vars.len(),
{
    if vars.len() == 0 {
        seq![(name, value)]
    } else if vars[0].0 == name {
        seq![(name, value)] + vars.skip(1)
    } else {
        seq![vars[0]] + vars_upsert(vars.skip(1), name, value)
    }
}

/// The value bound to `name`, if any.
pub open spec fn vars_get(vars: Seq<(Seq<char>, Seq<char>)>, name: Seq<char>) -> Option<
    Seq<char>,
>
    decreases vars.len(),
{
    if vars.len() == 0 {
        None
    } else if vars[0].0 == name {
        Some(vars[0].1)
    } else {
        vars_get(vars.skip(1), name)
    }
}

/// The sequence with leading and trailing occurrences of `c` removed.
pub open spec fn trim_char(s: Seq<char>, c: char) -> Seq<char>
    decreases s.len(),
{
    if s.len() == 0 {
        s
    } else if s[0] == c {
        trim_char(s.skip(1), c)
    } else if s[s.len() - 1] == c {
        trim_char(s.take(s.len() - 1), c)
    } else {
        s
    }
}

/// The maximal leading run of non-whitespace characters.
pub open spec fn word_at(s: Seq<char>) -> Seq<char>
    decreases s.len(),
{
    if s.len() == 0 || is_space(s[0]) {
        Seq::empty()
    } else {
        seq![s[0]] + word_at(s.skip(1))
    }
}

/// The leading word is never longer than the text.
pub proof fn lemma_word_at_len(s: Seq<char>)
    ensures
        word_at(s).len() <= s.len(),
        s.len() > 0 && !is_space(s[0]) ==> word_at(s).len() >= 1,
    decreases s.len(),
{
    if s.len() > 0 && !is_space(s[0]) {
        lemma_word_at_len(s.skip(1));
    }
}

/// The maximal whitespace-separated words of `s`, in order.
pub open spec fn split_words(s: Seq<char>) -> Seq<Seq<char>>
    decreases s.len(),
        via split_words_via
{
    if s.len() == 0 {
        Seq::empty()
    } else if is_space(s[0]) {
        split_words(s.skip(1))
    } else {
        seq![word_at(s)] + split_words(s.skip(word_at(s).len() as int))
    }
}

#[via_fn]
proof fn split_words_via(s: Seq<char>) {
    if s.len() > 0 && !is_space(s[0]) {
        lemma_word_at_len(s);
    }
}

/// `s` split at occurrences of `c`, like lines at newlines.
pub open spec fn split_on(s: Seq<char>, c: char) -> Seq<Seq<char>>
    decreases s.len(),
{
    if s.len() == 0 {
        seq![Seq::empty()]
    } else if s[0] == c {
        seq![Seq::<char>::empty()] + split_on(s.skip(1), c)
    } else {
        let rest = split_on(s.skip(1), c);
        seq![seq![s[0]] + rest[0]] + rest.skip(1)
    }
}

/// One parsed line folded into the variable list: a color-definition
/// statement binds its second word to its third (semicolons stripped); a
/// custom-property line binds the dash-stripped name before the first
/// colon to the trimmed value between the first and second colons.
pub open spec fn style_line_step(
    acc: Seq<(Seq<char>, Seq<char>)>,
    line: Seq<char>,
) -> Seq<(Seq<char>, Seq<char>)> {
    let t = trim(line);
    if starts_with(t, "@define-color"@) {
        let parts = split_words(t);
        if parts.len() >= 3 {
            vars_upsert(acc, parts[1], trim_char(parts[2], ';'))
        } else {
            acc
        }
    } else if starts_with(t, "--"@) {
        let parts = split_on(t, ':');
        if parts.len() >= 2 {
            vars_upsert(acc, trim(trim_char(parts[0], '-')), trim(trim_char(parts[1], ';')))
        } else {
            acc
        }
    } else {
        acc
    }
}

/// The fold of `style_line_step` over the lines.
pub open spec fn style_fold(
    lines: Seq<Seq<char>>,
    acc: Seq<(Seq<char>, Seq<char>)>,
) -> Seq<(Seq<char>, Seq<char>)>
    decreases lines.len(),
{
    if lines.len() == 0 {
        acc
    } else {
        style_fold(lines.skip(1), style_line_step(acc, lines[0]))
    }
}

/// The variables parsed out of a style-variables file.
pub open spec fn parse_style_vars_of(text: Seq<char>) -> Seq<(Seq<char>, Seq<char>)> {
    style_fold(lines_of(text), Seq::empty())
}

/// True when a value is written as a metric (custom property): it ends in
/// a pixel unit or is a plain decimal numeral.
pub open spec fn is_metric_value(v: Seq<char>) -> bool {
    ||| (v.len() >= 2 && v.subrange(v.len() - 2, v.len() as int) == "px"@)
    ||| is_decimal(v)
}

/// Digits with at most one point and at least one digit.
pub open spec fn is_decimal_body(body: Seq<char>) -> bool {
    &&& body.len() >= 1
    &&& (forall|i: int|
        0 <= i < body.len() ==> ('0' <= #[trigger] body[i] <= '9') || body[i] == '.')
    &&& (exists|i: int| 0 <= i < body.len() && '0' <= #[trigger] body[i] <= '9')
    &&& (forall|i: int, j: int|
        0 <= i < j < body.len() && #[trigger] body[i] == '.' && #[trigger] body[j] == '.'
            ==> false)
}

/// A plain decimal numeral: an optional sign, at least one digit, and at
/// most one point.
pub open spec fn is_decimal(v: Seq<char>) -> bool {
    if v.len() > 0 && (v[0] == '-' || v[0] == '+') {
        is_decimal_body(v.skip(1))
    } else {
        is_decimal_body(v)
    }
}

/// One color-definition line.
pub open spec fn color_line(name: Seq<char>, value: Seq<char>) -> Seq<char> {
    "@define-color "@ + name + seq![' '] + value + seq![';', '\n']
}

/// One custom-property line.
pub open spec fn metric_line(name: Seq<char>, value: Seq<char>) -> Seq<char> {
    "    --"@ + name + seq![':', ' '] + value + seq![';', '\n']
}

/// All color-definition lines, in order.
pub open spec fn color_lines(vars: Seq<(Seq<char>, Seq<char>)>) -> Seq<char>
    decreases vars.len(),
{
    if vars.len() == 0 {
        Seq::empty()
    } else if is_metric_value(vars[0].1) {
        color_lines(vars.skip(1))
    } else {
        color_line(vars[0].0, vars[0].1) + color_lines(vars.skip(1))
    }
}

/// All custom-property lines, in order.
pub open spec fn metric_lines(vars: Seq<(Seq<char>, Seq<char>)>) -> Seq<char>
    decreases vars.len(),
{
    if vars.len() == 0 {
        Seq::empty()
    } else if is_metric_value(vars[0].1) {
        metric_line(vars[0].0, vars[0].1) + metric_lines(vars.skip(1))
    } else {
        metric_lines(vars.skip(1))
    }
}

/// True when some variable holds a metric value.
pub open spec fn has_metric(vars: Seq<(Seq<char>, Seq<char>)>) -> bool {
    exists|i: int| 0 <= i < vars.len() && is_metric_value((#[trigger] vars[i]).1)
}

/// The serialized style-variables file: a header, the color definitions,
/// and one universal-selector block with the custom properties.
pub open spec fn style_save_text_of(vars: Seq<(Seq<char>, Seq<char>)>) -> Seq<char> {
    "/* WaybarConf Style Variables */\n\n"@ + color_lines(vars) + (if has_metric(vars) {
        "\n* {\n"@ + metric_lines(vars) + "}\n"@
    } else {
        Seq::<char>::empty()
    })
}

} // verus!

verus! {

/// The trimmed copy of a line.
fn trimmed_text(line: &Vec<char>) -> (r: Vec<char>)
    ensures
        r@ == trim(line@),
{
    let (a, b) = crate::css::trim_bounds(line);
    let mut out: Vec<char> = Vec::new();
    let mut i: usize = a;
    while i < b
        invariant
            a <= i <= b <= line.len(),
            out@ == line@.subrange(a as int, i as int),
        decreases b - i,
    {
        out.push(line[i]);
        proof {
            assert(out@ =~= line@.subrange(a as int, i + 1));
        }
        i += 1;
    }
    proof {
        assert(out@ =~= line@.subrange(a as int, b as int));
    }
    out
}

/// The leading word is the run up to the first whitespace.
pub proof fn lemma_word_at_range(s: Seq<char>, k: int)
    requires
        0 <= k <= s.len(),
        forall|j: int| 0 <= j < k ==> !is_space(#[trigger] s[j]),
        k == s.len() || is_space(s[k]),
    ensures
        word_at(s) == s.take(k),
    decreases k,
{
    if k == 0 {
        assert(s.take(0) =~= Seq::<char>::empty());
    } else {
        lemma_word_at_range(s.skip(1), k - 1);
        assert(s.skip(1).take(k - 1) =~= s.take(k).skip(1));
        assert(seq![s[0]] + s.take(k).skip(1) =~= s.take(k));
    }
}

/// Split text into its whitespace-separated words.
fn split_words_exec(t: &Vec<char>) -> (r: Vec<Vec<char>>)
    ensures
        crate::document::texts_of(r@) == split_words(t@),
{
    let mut out: Vec<Vec<char>> = Vec::new();
    let mut i: usize = 0;
    proof {
        assert(t@.skip(0) =~= t@);
        assert(crate::document::texts_of(out@) + split_words(t@.skip(0)) =~= split_words(t@));
    }
    while i < t.len()
        invariant
            i <= t.len(),
            split_words(t@) == crate::document::texts_of(out@) + split_words(
                t@.skip(i as int),
            ),
        decreases t.len() - i,
    {
        let c = t[i];
        proof {
            assert(t@.skip(i as int)[0] == t@[i as int]);
            assert(t@.skip(i as int).skip(1) =~= t@.skip(i + 1));
        }
        if c == ' ' || c == '\t' || c == '\r' {
            proof {
                assert(split_words(t@.skip(i as int)) == split_words(t@.skip(i + 1)));
            }
            i += 1;
        } else {
            // scan to the end of the word
            let mut k: usize = i;
            let mut w: Vec<char> = Vec::new();
            while k < t.len() && !(t[k] == ' ' || t[k] == '\t' || t[k] == '\r')
                invariant
                    i <= k <= t.len(),
                    w@ == t@.subrange(i as int, k as int),
                    forall|j: int| i <= j < k ==> !is_space(#[trigger] t@[j]),
                decreases t.len() - k,
            {
                w.push(t[k]);
                proof {
                    assert(w@ =~= t@.subrange(i as int, k + 1));
                }
                k += 1;
            }
            proof {
                lemma_word_at_range(t@.skip(i as int), k - i);
                assert forall|j: int| 0 <= j < k - i implies !is_space(
                    #[trigger] t@.skip(i as int)[j],
                ) by {
                    assert(t@.skip(i as int)[j] == t@[i + j]);
                }
                assert(t@.skip(i as int).take(k - i) =~= t@.subrange(i as int, k as int));
                assert(word_at(t@.skip(i as int)) == w@);
                assert(w@.len() == k - i);
                assert(t@.skip(i as int).skip(k - i) =~= t@.skip(k as int));
                assert(split_words(t@.skip(i as int)) == seq![w@] + split_words(
                    t@.skip(k as int),
                ));
            }
            let ghost preout = out@;
            let ghost wv = w@;
            out.push(w);
            proof {
                assert(crate::document::texts_of(out@) =~= crate::document::texts_of(preout)
                    + seq![wv]);
                assert(crate::document::texts_of(preout) + seq![wv] + split_words(
                    t@.skip(k as int),
                ) =~= crate::document::texts_of(preout) + (seq![wv] + split_words(
                    t@.skip(k as int),
                )));
            }
            i = k;
        }
    }
    proof {
        assert(t@.skip(i as int).len() == 0);
        assert(split_words(t@.skip(i as int)) =~= Seq::<Seq<char>>::empty());
        assert(crate::document::texts_of(out@) =~= split_words(t@));
    }
    out
}

/// Split text at a separator character.
fn split_on_exec(t: &Vec<char>, c: char) -> (r: Vec<Vec<char>>)
    ensures
        crate::document::texts_of(r@) == split_on(t@, c),
{
    let mut out: Vec<Vec<char>> = Vec::new();
    let mut cur: Vec<char> = Vec::new();
    let mut i: usize = 0;
    proof {
        assert(t@.skip(0) =~= t@);
    }
    while i < t.len()
        invariant
            i <= t.len(),
            split_on(t@, c) == crate::document::texts_of(out@) + seq![cur@ + split_on(
                t@.skip(i as int),
                c,
            )[0]] + split_on(t@.skip(i as int), c).skip(1),
        decreases t.len() - i,
    {
        let ch = t[i];
        proof {
            assert(t@.skip(i as int)[0] == t@[i as int]);
            assert(t@.skip(i as int).skip(1) =~= t@.skip(i + 1));
            assert(split_on(t@.skip(i + 1), c).len() >= 1) by {
                let rest = t@.skip(i + 1);
                if rest.len() > 0 && rest[0] != c {
                }
            }
        }
        if ch == c {
            let ghost curv = cur@;
            let done = cur;
            out.push(done);
            cur = Vec::new();
            proof {
                assert(curv + Seq::<char>::empty() =~= curv);
                assert(split_on(t@.skip(i as int), c) == seq![Seq::<char>::empty()] + split_on(
                    t@.skip(i + 1),
                    c,
                ));
                assert(split_on(t@.skip(i as int), c)[0] =~= Seq::<char>::empty());
                assert(split_on(t@.skip(i as int), c).skip(1) =~= split_on(t@.skip(i + 1), c));
                assert(crate::document::texts_of(out@) =~= crate::document::texts_of(
                    out@.drop_last(),
                ) + seq![curv]);
                assert(split_on(t@, c) =~= crate::document::texts_of(out@) + seq![cur@
                    + split_on(t@.skip(i + 1), c)[0]] + split_on(t@.skip(i + 1), c).skip(1));
            }
        } else {
            let ghost curv = cur@;
            cur.push(ch);
            proof {
                let rest = split_on(t@.skip(i + 1), c);
                assert(split_on(t@.skip(i as int), c) == seq![seq![t@[i as int]] + rest[0]]
                    + rest.skip(1));
                assert(split_on(t@.skip(i as int), c)[0] == seq![ch] + rest[0]);
                assert(split_on(t@.skip(i as int), c).skip(1) =~= rest.skip(1));
                assert(curv + (seq![ch] + rest[0]) =~= cur@ + rest[0]);
                assert(split_on(t@, c) =~= crate::document::texts_of(out@) + seq![cur@
                    + rest[0]] + rest.skip(1));
            }
        }
        i += 1;
    }
    proof {
        assert(t@.skip(i as int).len() == 0);
        assert(split_on(t@.skip(i as int), c) == seq![Seq::<char>::empty()]);
        assert(split_on(t@.skip(i as int), c)[0] =~= Seq::<char>::empty());
    }
    let ghost curv = cur@;
    out.push(cur);
    proof {
        assert(crate::document::texts_of(out@) =~= crate::document::texts_of(out@.drop_last())
            + seq![curv]);
        assert(curv + Seq::<char>::empty() =~= curv);
        assert(split_on(t@.skip(t@.len() as int), c).skip(1) =~= Seq::<Seq<char>>::empty());
        assert(crate::document::texts_of(out@) =~= split_on(t@, c));
    }
    out
}

/// Strip leading and trailing occurrences of one character.
fn trim_char_exec(t: &Vec<char>, c: char) -> (r: Vec<char>)
    ensures
        r@ == trim_char(t@, c),
{
    let mut a: usize = 0;
    let mut b: usize = t.len();
    proof {
        assert(t@.subrange(0, t@.len() as int) =~= t@);
    }
    while a < b && t[a] == c
        invariant
            0 <= a <= b <= t.len(),
            b == t.len(),
            trim_char(t@, c) == trim_char(t@.subrange(a as int, b as int), c),
        decreases b - a,
    {
        proof {
            let cur = t@.subrange(a as int, b as int);
            assert(cur[0] == c);
            assert(cur.skip(1) =~= t@.subrange(a + 1, b as int));
        }
        a += 1;
    }
    while b > a && t[b - 1] == c
        invariant
            0 <= a <= b <= t.len(),
            trim_char(t@, c) == trim_char(t@.subrange(a as int, b as int), c),
            a == b || t@[a as int] != c,
        decreases b,
    {
        proof {
            let cur = t@.subrange(a as int, b as int);
            assert(cur[cur.len() - 1] == c);
            assert(cur[0] != c);
            assert(cur.take(cur.len() - 1) =~= t@.subrange(a as int, b - 1));
        }
        b -= 1;
    }
    let mut out: Vec<char> = Vec::new();
    let mut i: usize = a;
    while i < b
        invariant
            a <= i <= b <= t.len(),
            out@ == t@.subrange(a as int, i as int),
        decreases b - i,
    {
        out.push(t[i]);
        proof {
            assert(out@ =~= t@.subrange(a as int, i + 1));
        }
        i += 1;
    }
    proof {
        let cur = t@.subrange(a as int, b as int);
        assert(out@ =~= cur);
        if cur.len() > 0 {
            assert(cur[0] != c);
            assert(cur[cur.len() - 1] != c);
        }
        assert(trim_char(cur, c) == cur);
    }
    out
}

} // verus!

verus! {

/// The models of a pair vector.
pub open spec fn pair_views(s: Seq<(Vec<char>, Vec<char>)>) -> Seq<(Seq<char>, Seq<char>)> {
    crate::document::pairs_of(s)
}

/// Replacing at the first index realizes an upsert.
pub proof fn lemma_upsert_at(
    vars: Seq<(Seq<char>, Seq<char>)>,
    name: Seq<char>,
    value: Seq<char>,
    k: int,
)
    requires
        0 <= k < vars.len(),
        vars[k].0 == name,
        forall|j: int| 0 <= j < k ==> (#[trigger] vars[j]).0 != name,
    ensures
        vars_upsert(vars, name, value) == vars.update(k, (name, value)),
    decreases k,
{
    if k == 0 {
        assert(vars_upsert(vars, name, value) =~= vars.update(0, (name, value)));
    } else {
        lemma_upsert_at(vars.skip(1), name, value, k - 1);
        assert(vars.skip(1)[k - 1] == vars[k]);
        assert forall|j: int| 0 <= j < k - 1 implies (#[trigger] vars.skip(1)[j]).0 != name by {
            assert(vars.skip(1)[j] == vars[j + 1]);
        }
        assert(seq![vars[0]] + vars.skip(1).update(k - 1, (name, value)) =~= vars.update(
            k,
            (name, value),
        ));
    }
}

/// Appending realizes an upsert of an absent name.
pub proof fn lemma_upsert_absent(
    vars: Seq<(Seq<char>, Seq<char>)>,
    name: Seq<char>,
    value: Seq<char>,
)
    requires
        forall|j: int| 0 <= j < vars.len() ==> (#[trigger] vars[j]).0 != name,
    ensures
        vars_upsert(vars, name, value) == vars.push((name, value)),
    decreases vars.len(),
{
    if vars.len() == 0 {
        assert(vars_upsert(vars, name, value) =~= vars.push((name, value)));
    } else {
        assert forall|j: int| 0 <= j < vars.skip(1).len() implies (#[trigger] vars.skip(
            1,
        )[j]).0 != name by {
            assert(vars.skip(1)[j] == vars[j + 1]);
        }
        lemma_upsert_absent(vars.skip(1), name, value);
        assert(seq![vars[0]] + vars.skip(1).push((name, value)) =~= vars.push((name, value)));
    }
}

/// Bind `name` to `value`, replacing in place or appending.
pub fn upsert(vars: &mut Vec<(Vec<char>, Vec<char>)>, name: Vec<char>, value: Vec<char>)
    ensures
        pair_views(final(vars)@) == vars_upsert(pair_views(old(vars)@), name@, value@),
{
    let ghost model = pair_views(vars@);
    let mut k: usize = 0;
    while k < vars.len()
        invariant
            k <= vars.len(),
            vars@ == old(vars)@,
            model == pair_views(vars@),
            model.len() == vars@.len(),
            forall|j: int| 0 <= j < k ==> (#[trigger] model[j]).0 != name@,
        decreases vars.len() - k,
    {
        if crate::text::text_eq(&vars[k].0, &name) {
            let ghost pre = vars@;
            vars.set(k, (name, value));
            proof {
                lemma_upsert_at(model, pre[k as int].0@, vars@[k as int].1@, k as int);
                assert(pair_views(vars@) =~= model.update(
                    k as int,
                    (vars@[k as int].0@, vars@[k as int].1@),
                ));
            }
            return ;
        }
        k += 1;
    }
    let ghost pre = vars@;
    vars.push((name, value));
    proof {
        lemma_upsert_absent(model, vars@[vars@.len() - 1].0@, vars@[vars@.len() - 1].1@);
        assert(pair_views(vars@) =~= model.push(
            (vars@[vars@.len() - 1].0@, vars@[vars@.len() - 1].1@),
        ));
    }
}

/// Parse the style-variables file: color-definition statements and
/// custom-property lines, in file order, later bindings replacing earlier
/// values in place.
pub fn parse_style_vars(text: &Vec<char>) -> (r: Vec<(Vec<char>, Vec<char>)>)
    ensures
        pair_views(r@) == parse_style_vars_of(text@),
{
    let lines = crate::css::split_lines(text);
    let ghost linesv = crate::css::line_views(lines@);
    let mut vars: Vec<(Vec<char>, Vec<char>)> = Vec::new();
    let mut i: usize = 0;
    proof {
        assert(linesv.skip(0) =~= linesv);
        assert(pair_views(vars@) =~= Seq::<(Seq<char>, Seq<char>)>::empty());
    }
    while i < lines.len()
        invariant
            i <= lines.len(),
            linesv == crate::css::line_views(lines@),
            linesv.len() == lines@.len(),
            parse_style_vars_of(text@) == style_fold(linesv.skip(i as int), pair_views(vars@)),
        decreases lines.len() - i,
    {
        proof {
            assert(linesv.skip(i as int)[0] == linesv[i as int]);
            assert(linesv.skip(i as int).skip(1) =~= linesv.skip(i + 1));
            assert(lines@[i as int]@ == linesv[i as int]);
        }
        let t = trimmed_text(&lines[i]);
        let dc = crate::text::text_of("@define-color");
        let dashes = crate::text::text_of("--");
        let ghost before = pair_views(vars@);
        if crate::text::text_starts_with(&t, &dc) {
            let parts = split_words_exec(&t);
            if parts.len() >= 3 {
                let value = trim_char_exec(&parts[2], ';');
                let name = crate::json::copy_text(&parts[1]);
                proof {
                    assert(crate::document::texts_of(parts@)[1] == parts@[1]@);
                    assert(crate::document::texts_of(parts@)[2] == parts@[2]@);
                }
                upsert(&mut vars, name, value);
            }
        } else if crate::text::text_starts_with(&t, &dashes) {
            let parts = split_on_exec(&t, ':');
            if parts.len() >= 2 {
                let name0 = trim_char_exec(&parts[0], '-');
                let name = trimmed_text(&name0);
                let value0 = trim_char_exec(&parts[1], ';');
                let value = trimmed_text(&value0);
                proof {
                    assert(crate::document::texts_of(parts@)[0] == parts@[0]@);
                    assert(crate::document::texts_of(parts@)[1] == parts@[1]@);
                }
                upsert(&mut vars, name, value);
            }
        }
        proof {
            assert(pair_views(vars@) == style_line_step(before, linesv[i as int]));
            assert(style_fold(linesv.skip(i as int), before) == style_fold(
                linesv.skip(i + 1),
                pair_views(vars@),
            ));
        }
        i += 1;
    }
    proof {
        assert(linesv.skip(i as int).len() == 0);
        assert(style_fold(linesv.skip(i as int), pair_views(vars@)) == pair_views(vars@));
    }
    vars
}

} // verus!

verus! {

/// Writing distributes over appending one variable.
pub proof fn lemma_style_lines_push(vars: Seq<(Seq<char>, Seq<char>)>, x: (Seq<char>, Seq<char>))
    ensures
        color_lines(vars.push(x)) == color_lines(vars) + (if is_metric_value(x.1) {
            Seq::<char>::empty()
        } else {
            color_line(x.0, x.1)
        }),
        metric_lines(vars.push(x)) == metric_lines(vars) + (if is_metric_value(x.1) {
            metric_line(x.0, x.1)
        } else {
            Seq::<char>::empty()
        }),
        has_metric(vars.push(x)) == (has_metric(vars) || is_metric_value(x.1)),
    decreases vars.len(),
{
    let sp = vars.push(x);
    if vars.len() == 0 {
        assert(sp[0] == x);
        assert(sp.skip(1) =~= Seq::<(Seq<char>, Seq<char>)>::empty());
        assert(color_lines(sp.skip(1)) =~= Seq::<char>::empty());
        assert(metric_lines(sp.skip(1)) =~= Seq::<char>::empty());
        assert(color_lines(sp) =~= color_lines(vars) + (if is_metric_value(x.1) {
            Seq::<char>::empty()
        } else {
            color_line(x.0, x.1)
        }));
        assert(metric_lines(sp) =~= metric_lines(vars) + (if is_metric_value(x.1) {
            metric_line(x.0, x.1)
        } else {
            Seq::<char>::empty()
        }));
        if is_metric_value(x.1) {
            assert(has_metric(sp)) by {
                assert(is_metric_value(sp[0].1));
            }
        }
    } else {
        assert(sp[0] == vars[0]);
        assert(sp.skip(1) =~= vars.skip(1).push(x));
        lemma_style_lines_push(vars.skip(1), x);
        assert(color_lines(sp) =~= color_lines(vars) + (if is_metric_value(x.1) {
            Seq::<char>::empty()
        } else {
            color_line(x.0, x.1)
        }));
        assert(metric_lines(sp) =~= metric_lines(vars) + (if is_metric_value(x.1) {
            metric_line(x.0, x.1)
        } else {
            Seq::<char>::empty()
        }));
        assert(has_metric(sp) == (has_metric(vars) || is_metric_value(x.1))) by {
            if has_metric(vars) {
                let w = choose|w: int|
                    0 <= w < vars.len() && is_metric_value((#[trigger] vars[w]).1);
                assert(is_metric_value(sp[w].1));
            }
            if is_metric_value(x.1) {
                assert(is_metric_value(sp[sp.len() - 1].1));
            }
            if has_metric(sp) {
                let w = choose|w: int| 0 <= w < sp.len() && is_metric_value((#[trigger] sp[w]).1);
                if w < vars.len() {
                    assert(is_metric_value(vars[w].1));
                }
            }
        }
    }
}

/// True when the value is written as a metric.
fn is_metric_exec(v: &Vec<char>) -> (r: bool)
    ensures
        r == is_metric_value(v@),
{
    let is_px = v.len() >= 2 && v[v.len() - 2] == 'p' && v[v.len() - 1] == 'x';
    proof {
        reveal_strlit("px");
        if v@.len() >= 2 {
            assert(v@.subrange(v@.len() - 2, v@.len() as int)[0] == v@[v@.len() - 2]);
            assert(v@.subrange(v@.len() - 2, v@.len() as int)[1] == v@[v@.len() - 1]);
            if is_px {
                assert(v@.subrange(v@.len() - 2, v@.len() as int) =~= "px"@);
            }
        }
    }
    if is_px {
        return true;
    }
    let ghost no_px = !(v@.len() >= 2 && v@.subrange(v@.len() - 2, v@.len() as int) == "px"@);
    proof {
        assert(no_px);
    }
    // decimal check
    let start: usize = if v.len() > 0 && (v[0] == '-' || v[0] == '+') {
        1
    } else {
        0
    };
    let ghost body = if v@.len() > 0 && (v@[0] == '-' || v@[0] == '+') {
        v@.skip(1)
    } else {
        v@
    };
    proof {
        assert(body =~= v@.subrange(start as int, v@.len() as int));
    }
    if v.len() == start {
        proof {
            assert(body.len() == 0);
        }
        return false;
    }
    let mut i: usize = start;
    let mut saw_digit = false;
    let mut saw_dot = false;
    while i < v.len()
        invariant
            start <= i <= v.len(),
            !(v@.len() >= 2 && v@.subrange(v@.len() - 2, v@.len() as int) == "px"@),
            body == v@.subrange(start as int, v@.len() as int),
            body.len() == v@.len() - start,
            start == 1 <==> (v@.len() > 0 && (v@[0] == '-' || v@[0] == '+')),
            start == 0 || start == 1,
            forall|j: int| 0 <= j < i - start ==> ('0' <= #[trigger] body[j] <= '9') || body[j] == '.',
            saw_digit == exists|j: int| 0 <= j < i - start && '0' <= #[trigger] body[j] <= '9',
            saw_dot == exists|j: int| 0 <= j < i - start && #[trigger] body[j] == '.',
            !(exists|p: int, q: int|
                0 <= p < q < i - start && #[trigger] body[p] == '.' && #[trigger] body[q] == '.'),
        decreases v.len() - i,
    {
        let c = v[i];
        proof {
            assert(body[i - start] == v@[i as int]);
        }
        if '0' <= c && c <= '9' {
            proof {
                assert('0' <= body[i - start] <= '9');
            }
            saw_digit = true;
        } else if c == '.' {
            if saw_dot {
                proof {
                    let p = choose|p: int| 0 <= p < i - start && #[trigger] body[p] == '.';
                    assert(body[p] == '.' && body[i - start] == '.');
                }
                return false;
            }
            saw_dot = true;
        } else {
            proof {
                assert(!(('0' <= body[i - start] <= '9') || body[i - start] == '.'));
            }
            return false;
        }
        i += 1;
    }
    proof {
        assert(body.len() >= 1);
        assert(i - start == body.len());
        if saw_digit {
            assert(is_decimal_body(body));
            assert(is_decimal(v@));
        } else {
            assert(!is_decimal_body(body));
            assert(!is_decimal(v@));
        }
    }
    saw_digit
}

/// The serialized style-variables file for `vars`.
pub fn style_save_text(vars: &Vec<(Vec<char>, Vec<char>)>) -> (r: Vec<char>)
    ensures
        r@ == style_save_text_of(pair_views(vars@)),
{
    let ghost model = pair_views(vars@);
    let mut colors: Vec<char> = Vec::new();
    let mut metrics: Vec<char> = Vec::new();
    let mut any_metric = false;
    let mut i: usize = 0;
    proof {
        assert(model.take(0) =~= Seq::<(Seq<char>, Seq<char>)>::empty());
        assert(colors@ =~= color_lines(model.take(0)));
        assert(metrics@ =~= metric_lines(model.take(0)));
    }
    while i < vars.len()
        invariant
            i <= vars.len(),
            model == pair_views(vars@),
            model.len() == vars@.len(),
            colors@ == color_lines(model.take(i as int)),
            metrics@ == metric_lines(model.take(i as int)),
            any_metric == has_metric(model.take(i as int)),
        decreases vars.len() - i,
    {
        proof {
            assert(model.take(i + 1) =~= model.take(i as int).push(model[i as int]));
            lemma_style_lines_push(model.take(i as int), model[i as int]);
            assert(model[i as int] == (vars@[i as int].0@, vars@[i as int].1@));
        }
        if is_metric_exec(&vars[i].1) {
            let mut ml = crate::text::text_of("    --");
            crate::text::append_text(&mut ml, &vars[i].0);
            ml.push(':');
            ml.push(' ');
            crate::text::append_text(&mut ml, &vars[i].1);
            ml.push(';');
            ml.push('\n');
            proof {
                assert(ml@ =~= metric_line(model[i as int].0, model[i as int].1));
            }
            crate::text::append_text(&mut metrics, &ml);
            any_metric = true;
        } else {
            let mut cl = crate::text::text_of("@define-color ");
            crate::text::append_text(&mut cl, &vars[i].0);
            cl.push(' ');
            crate::text::append_text(&mut cl, &vars[i].1);
            cl.push(';');
            cl.push('\n');
            proof {
                assert(cl@ =~= color_line(model[i as int].0, model[i as int].1));
            }
            crate::text::append_text(&mut colors, &cl);
        }
        i += 1;
    }
    proof {
        assert(model.take(model.len() as int) =~= model);
    }
    let mut out = crate::text::text_of("/* WaybarConf Style Variables */\n\n");
    crate::text::append_text(&mut out, &colors);
    if any_metric {
        let opener = crate::text::text_of("\n* {\n");
        crate::text::append_text(&mut out, &opener);
        crate::text::append_text(&mut out, &metrics);
        let closer = crate::text::text_of("}\n");
        crate::text::append_text(&mut out, &closer);
    }
    proof {
        assert(out@ =~= style_save_text_of(model));
    }
    out
}

} // verus!

verus! {

/// The hex color for a role in the extracted palette: the `dark` string
/// of the role's entry under `colors`.
pub open spec fn role_color(colors: JsonData, role: Seq<char>) -> Option<Seq<char>> {
    match colors {
        JsonData::Obj(entries) => match obj_get(entries, role) {
            Some(JsonData::Obj(fields)) => match obj_get(fields, "dark"@) {
                Some(JsonData::Str(s)) => Some(s),
                _ => None,
            },
            _ => None,
        },
        _ => None,
    }
}

/// One role applied to the variables: bound under `name` when extracted,
/// untouched otherwise.
pub open spec fn apply_role(
    vars: Seq<(Seq<char>, Seq<char>)>,
    colors: JsonData,
    role: Seq<char>,
    name: Seq<char>,
) -> Seq<(Seq<char>, Seq<char>)> {
    match role_color(colors, role) {
        Some(c) => vars_upsert(vars, name, c),
        None => vars,
    }
}

/// The variables with every extracted color role merged in, in the fixed
/// role order.
pub open spec fn apply_color_roles(
    vars: Seq<(Seq<char>, Seq<char>)>,
    colors: JsonData,
) -> Seq<(Seq<char>, Seq<char>)> {
    let v1 = apply_role(vars, colors, "surface"@, "bar_bg"@);
    let v2 = apply_role(v1, colors, "on_surface"@, "bar_fg"@);
    let v3 = apply_role(v2, colors, "secondary_container"@, "module_bg"@);
    let v4 = apply_role(v3, colors, "on_secondary_container"@, "module_fg"@);
    let v5 = apply_role(v4, colors, "primary"@, "hover_bg"@);
    let v6 = apply_role(v5, colors, "on_primary"@, "hover_fg"@);
    apply_role(v6, colors, "outline"@, "border_color"@)
}

/// The `colors` field of an extraction tool's output document.
pub open spec fn palette_of(root: JsonData) -> Option<JsonData> {
    match root {
        JsonData::Obj(entries) => obj_get(entries, "colors"@),
        _ => None,
    }
}

/// The hex color for one role, executable.
fn role_color_exec(colors: &JsonValue, role: &str) -> (r: Option<Vec<char>>)
    ensures
        match role_color(colors@, role@) {
            Some(c) => r.is_some() && r->0@ == c,
            None => r.is_none(),
        },
{
    let rolev = crate::text::text_of(role);
    match colors {
        JsonValue::Obj(entries) => match crate::json::obj_find(entries, &rolev) {
            Some(entry) => match entry {
                JsonValue::Obj(fields) => {
                    let dk = crate::text::text_of("dark");
                    match crate::json::obj_find(fields, &dk) {
                        Some(d) => match d {
                            JsonValue::Str(s) => Some(crate::json::copy_text(s)),
                            _ => None,
                        },
                        None => None,
                    }
                },
                _ => None,
            },
            None => None,
        },
        _ => None,
    }
}

/// Apply one role to the variables, executable.
fn apply_role_exec(
    vars: &mut Vec<(Vec<char>, Vec<char>)>,
    colors: &JsonValue,
    role: &str,
    name: &str,
)
    ensures
        pair_views(final(vars)@) == apply_role(pair_views(old(vars)@), colors@, role@, name@),
{
    match role_color_exec(colors, role) {
        Some(c) => {
            upsert(vars, crate::text::text_of(name), c);
        },
        None => {},
    }
}

/// Merge the extracted color roles of a palette document into the
/// variables; fails when the document has no `colors` field.
pub fn apply_palette(vars: &mut Vec<(Vec<char>, Vec<char>)>, root: &JsonValue) -> (r: Result<
    (),
    crate::codec::ParseError,
>)
    ensures
        match palette_of(root@) {
            Some(colors) => r is Ok && pair_views(final(vars)@) == apply_color_roles(
                pair_views(old(vars)@),
                colors,
            ),
            None => r is Err && final(vars)@ == old(vars)@,
        },
{
    let ckey = crate::text::text_of("colors");
    let colors = match root {
        JsonValue::Obj(entries) => match crate::json::obj_find(entries, &ckey) {
            Some(c) => c,
            None => {
                return Err(crate::codec::ParseError::Malformed);
            },
        },
        _ => {
            return Err(crate::codec::ParseError::Malformed);
        },
    };
    apply_role_exec(vars, colors, "surface", "bar_bg");
    apply_role_exec(vars, colors, "on_surface", "bar_fg");
    apply_role_exec(vars, colors, "secondary_container", "module_bg");
    apply_role_exec(vars, colors, "on_secondary_container", "module_fg");
    apply_role_exec(vars, colors, "primary", "hover_bg");
    apply_role_exec(vars, colors, "on_primary", "hover_fg");
    apply_role_exec(vars, colors, "outline", "border_color");
    Ok(())
}

/// The first position where `pat` occurs in `s`, if any.
pub open spec fn find_sub(s: Seq<char>, pat: Seq<char>) -> Option<int>
    decreases s.len() + 1 - 0,
{
    find_sub_from(s, pat, 0)
}

/// The first position at or after `i` where `pat` occurs.
pub open spec fn find_sub_from(s: Seq<char>, pat: Seq<char>, i: int) -> Option<int>
    decreases s.len() + 1 - i,
{
    if i < 0 || i + pat.len() > s.len() {
        None
    } else if crate::css::contains_at(s, pat, i) {
        Some(i)
    } else {
        find_sub_from(s, pat, i + 1)
    }
}

/// Whitespace (including newlines) trimmed from both ends.
pub open spec fn trim_full(s: Seq<char>) -> Seq<char>
    decreases s.len(),
{
    if s.len() == 0 {
        s
    } else if crate::codec::is_json_ws(s[0]) {
        trim_full(s.skip(1))
    } else if crate::codec::is_json_ws(s[s.len() - 1]) {
        trim_full(s.take(s.len() - 1))
    } else {
        s
    }
}

/// The wallpaper path scraped from a `query`-style report: the trimmed
/// remainder after the `image: ` marker.
pub open spec fn wallpaper_from_query(out: Seq<char>) -> Option<Seq<char>> {
    match find_sub(out, "image: "@) {
        Some(i) => Some(trim_full(out.skip(i + 7))),
        None => None,
    }
}

/// The maximal leading run of non-whitespace characters, counting
/// newlines as whitespace.
pub open spec fn word_full(s: Seq<char>) -> Seq<char>
    decreases s.len(),
{
    if s.len() == 0 || crate::codec::is_json_ws(s[0]) {
        Seq::empty()
    } else {
        seq![s[0]] + word_full(s.skip(1))
    }
}

/// The wallpaper path scraped from a `listactive`-style report: the first
/// whitespace-separated token after the `wallpaper: ` marker.
pub open spec fn wallpaper_from_listing(out: Seq<char>) -> Option<Seq<char>> {
    match find_sub(out, "wallpaper: "@) {
        Some(i) => Some(word_full(skip_spaces(out.skip(i + 11)))),
        None => None,
    }
}

/// Leading whitespace (including newlines) removed.
pub open spec fn skip_spaces(s: Seq<char>) -> Seq<char>
    decreases s.len(),
{
    if s.len() > 0 && crate::codec::is_json_ws(s[0]) {
        skip_spaces(s.skip(1))
    } else {
        s
    }
}

} // verus!

verus! {

/// The first position of `pat` in `t`, executable.
fn find_sub_exec(t: &Vec<char>, pat: &Vec<char>) -> (r: Option<usize>)
    ensures
        match find_sub(t@, pat@) {
            Some(i) => r.is_some() && r->0 == i,
            None => r.is_none(),
        },
{
    if pat.len() > t.len() {
        proof {
            assert forall|j: int| 0 <= j implies !crate::css::contains_at(t@, pat@, j) by {}
            lemma_find_sub_none(t@, pat@, 0);
        }
        return None;
    }
    if pat.len() == 0 {
        proof {
            assert(t@.subrange(0, 0) =~= pat@);
            assert(crate::css::contains_at(t@, pat@, 0));
            lemma_find_sub_at(t@, pat@, 0, 0);
        }
        return Some(0);
    }
    let mut i: usize = 0;
    while i <= t.len() - pat.len()
        invariant
            0 < pat.len() <= t.len(),
            i <= t.len() - pat.len() + 1,
            forall|j: int| 0 <= j < i ==> !crate::css::contains_at(t@, pat@, j),
        decreases t.len() - pat.len() + 1 - i,
    {
        let mut k: usize = 0;
        let mut hit = true;
        while k < pat.len()
            invariant
                hit ==> forall|m: int| 0 <= m < k ==> t@[i + m] == pat@[m],
                !hit ==> !crate::css::contains_at(t@, pat@, i as int),
                k <= pat.len(),
                i + pat.len() <= t.len(),
            decreases pat.len() - k,
        {
            if t[i + k] != pat[k] {
                hit = false;
                proof {
                    assert(t@.subrange(i as int, i + pat@.len())[k as int] != pat@[k as int]);
                }
                k = pat.len();
            } else {
                k += 1;
            }
        }
        if hit {
            proof {
                assert(t@.subrange(i as int, i + pat@.len()) =~= pat@);
                assert(crate::css::contains_at(t@, pat@, i as int));
                lemma_find_sub_at(t@, pat@, 0, i as int);
            }
            return Some(i);
        }
        proof {
            if crate::css::contains_at(t@, pat@, i as int) {
                assert(t@.subrange(i as int, i + pat@.len()) == pat@);
            }
        }
        i += 1;
    }
    proof {
        assert forall|j: int| 0 <= j implies !crate::css::contains_at(t@, pat@, j) by {
            if 0 <= j <= t@.len() - pat@.len() {
                assert(!crate::css::contains_at(t@, pat@, j));
            }
        }
        lemma_find_sub_none(t@, pat@, 0);
    }
    None
}

/// What a found position means.
pub proof fn lemma_find_sub_at(s: Seq<char>, pat: Seq<char>, i: int, p: int)
    requires
        0 <= i <= p,
        crate::css::contains_at(s, pat, p),
        forall|j: int| i <= j < p ==> !crate::css::contains_at(s, pat, j),
    ensures
        find_sub_from(s, pat, i) == Some(p),
    decreases p - i,
{
    if i < p {
        lemma_find_sub_at(s, pat, i + 1, p);
    }
}

/// Absence everywhere means nothing is found.
pub proof fn lemma_find_sub_none(s: Seq<char>, pat: Seq<char>, i: int)
    requires
        0 <= i,
        forall|j: int| i <= j ==> !crate::css::contains_at(s, pat, j),
    ensures
        find_sub_from(s, pat, i) is None,
    decreases s.len() + 1 - i,
{
    if i + pat.len() <= s.len() {
        lemma_find_sub_none(s, pat, i + 1);
    }
}

/// Scrape the wallpaper path out of a `query`-style report.
pub fn wallpaper_from_query_text(out: &Vec<char>) -> (r: Option<Vec<char>>)
    ensures
        match wallpaper_from_query(out@) {
            Some(p) => r.is_some() && r->0@ == p,
            None => r.is_none(),
        },
{
    let marker = crate::text::text_of("image: ");
    let i = match find_sub_exec(out, &marker) {
        Some(i) => i,
        None => {
            return None;
        },
    };
    proof {
        reveal_strlit("image: ");
        assert(marker@.len() == 7);
        lemma_find_sub_bounds(out@, marker@, 0);
        assert(find_sub(out@, marker@) is Some);
        assert(i == find_sub_from(out@, marker@, 0)->Some_0);
        assert(i + 7 <= out@.len());
    }
    let n = out.len();
    proof {
        assert(i + 7 <= n);
    }
    let mut a: usize = i + 7;
    let mut b: usize = out.len();
    proof {
        assert(out@.subrange(a as int, b as int) =~= out@.skip(i + 7));
    }
    while a < b && (out[a] == ' ' || out[a] == '\t' || out[a] == '\n' || out[a] == '\r')
        invariant
            i + 7 <= a <= b <= out.len(),
            b == out.len(),
            trim_full(out@.skip(i + 7)) == trim_full(out@.subrange(a as int, b as int)),
        decreases b - a,
    {
        proof {
            let cur = out@.subrange(a as int, b as int);
            assert(cur[0] == out@[a as int]);
            assert(cur.skip(1) =~= out@.subrange(a + 1, b as int));
        }
        a += 1;
    }
    while b > a && (out[b - 1] == ' ' || out[b - 1] == '\t' || out[b - 1] == '\n' || out[b - 1]
        == '\r')
        invariant
            i + 7 <= a <= b <= out.len(),
            trim_full(out@.skip(i + 7)) == trim_full(out@.subrange(a as int, b as int)),
            a == b || !crate::codec::is_json_ws(out@[a as int]),
        decreases b,
    {
        proof {
            let cur = out@.subrange(a as int, b as int);
            assert(cur[cur.len() - 1] == out@[b - 1]);
            assert(cur[0] == out@[a as int]);
            assert(cur.take(cur.len() - 1) =~= out@.subrange(a as int, b - 1));
        }
        b -= 1;
    }
    let mut path: Vec<char> = Vec::new();
    let mut k: usize = a;
    while k < b
        invariant
            a <= k <= b <= out.len(),
            path@ == out@.subrange(a as int, k as int),
        decreases b - k,
    {
        path.push(out[k]);
        proof {
            assert(path@ =~= out@.subrange(a as int, k + 1));
        }
        k += 1;
    }
    proof {
        let cur = out@.subrange(a as int, b as int);
        assert(path@ =~= cur);
        if cur.len() > 0 {
            assert(cur[0] == out@[a as int]);
            assert(cur[cur.len() - 1] == out@[b - 1]);
        }
        assert(trim_full(cur) == cur);
    }
    Some(path)
}

/// Found positions leave room for the pattern.
pub proof fn lemma_find_sub_bounds(s: Seq<char>, pat: Seq<char>, i: int)
    requires
        0 <= i,
    ensures
        match find_sub_from(s, pat, i) {
            Some(p) => i <= p && p + pat.len() <= s.len(),
            None => true,
        },
    decreases s.len() + 1 - i,
{
    if i + pat.len() <= s.len() && !crate::css::contains_at(s, pat, i) {
        lemma_find_sub_bounds(s, pat, i + 1);
    }
}

/// Scrape the wallpaper path out of a `listactive`-style report.
pub fn wallpaper_from_listing_text(out: &Vec<char>) -> (r: Option<Vec<char>>)
    ensures
        match wallpaper_from_listing(out@) {
            Some(p) => r.is_some() && r->0@ == p,
            None => r.is_none(),
        },
{
    let marker = crate::text::text_of("wallpaper: ");
    let i = match find_sub_exec(out, &marker) {
        Some(i) => i,
        None => {
            return None;
        },
    };
    proof {
        reveal_strlit("wallpaper: ");
        assert(marker@.len() == 11);
        lemma_find_sub_bounds(out@, marker@, 0);
        assert(find_sub(out@, marker@) is Some);
        assert(i == find_sub_from(out@, marker@, 0)->Some_0);
        assert(i + 11 <= out@.len());
    }
    let n = out.len();
    proof {
        assert(i + 11 <= n);
    }
    let mut a: usize = i + 11;
    proof {
        assert(out@.skip(a as int) =~= out@.skip(i + 11));
    }
    while a < out.len() && (out[a] == ' ' || out[a] == '\t' || out[a] == '\n' || out[a] == '\r')
        invariant
            i + 11 <= a <= out.len(),
            skip_spaces(out@.skip(i + 11)) == skip_spaces(out@.skip(a as int)),
        decreases out.len() - a,
    {
        proof {
            assert(out@.skip(a as int)[0] == out@[a as int]);
            assert(out@.skip(a as int).skip(1) =~= out@.skip(a + 1));
        }
        a += 1;
    }
    proof {
        if a < out@.len() {
            assert(out@.skip(a as int)[0] == out@[a as int]);
        }
        assert(skip_spaces(out@.skip(a as int)) == out@.skip(a as int));
    }
    let mut word: Vec<char> = Vec::new();
    let mut k: usize = a;
    while k < out.len() && !(out[k] == ' ' || out[k] == '\t' || out[k] == '\n' || out[k] == '\r')
        invariant
            a <= k <= out.len(),
            word@ == out@.subrange(a as int, k as int),
            word_full(out@.skip(a as int)) == word@ + word_full(out@.skip(k as int)),
        decreases out.len() - k,
    {
        proof {
            assert(out@.skip(k as int)[0] == out@[k as int]);
            assert(out@.skip(k as int).skip(1) =~= out@.skip(k + 1));
            assert(word_full(out@.skip(k as int)) == seq![out@[k as int]] + word_full(
                out@.skip(k + 1),
            ));
        }
        word.push(out[k]);
        proof {
            assert(word@ =~= out@.subrange(a as int, k + 1));
            assert(word@.drop_last() + (seq![out@[k as int]] + word_full(out@.skip(k + 1)))
                =~= word@ + word_full(out@.skip(k + 1)));
        }
        k += 1;
    }
    proof {
        if k < out@.len() {
            assert(out@.skip(k as int)[0] == out@[k as int]);
        } else {
            assert(out@.skip(k as int).len() == 0);
        }
        assert(word_full(out@.skip(k as int)) =~= Seq::<char>::empty());
        assert(word@ + Seq::<char>::empty() =~= word@);
    }
    Some(word)
}

} // verus!

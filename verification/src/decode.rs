//! The decoder: a line- and indentation-driven parser turning text of the
//! notation back into a value. Simple `key: value` pairs, pending keys whose
//! object or array bodies follow on deeper lines, dash items, inline scalar
//! arrays and tabular record arrays are all decoded by indentation alone. In
//! strict mode any line the grammar cannot place is a decoding error; in
//! lenient mode such lines are skipped. One dash-item shape stays outside
//! the grammar: an item carrying a named array header (`- key[..]: ...`),
//! which the encoder never emits; strict mode rejects it.

use vstd::prelude::*;
use crate::lexical::{
    parse_scalar_spec, parse_scalar, trim_chars, trim_spec, trim_start_spec, unescape_chars,
    unescape_spec,
};
use crate::number::{find_char, lemma_find_char_at, lemma_find_char_none};
use crate::value::{SpecValue, Value, entries_wf, items_wf, keys_distinct, lemma_entries_wf_elem, lemma_entries_wf_from, lemma_items_wf_cons, lemma_view_entries, lemma_view_items, spec_value_wf, view_entries, view_items};
use crate::ToonError;

verus! {

broadcast use
    vstd::std_specs::vec::axiom_vec_decreases_to_view,
    vstd::seq::axiom_seq_index_decreases;

/// One step of the quote-aware scan: `esc` skips an escaped character,
/// quotes toggle `inq`, and a match counts only outside quotes.
pub open spec fn find_unq_from(s: Seq<char>, c: char, i: int, inq: bool, esc: bool) -> int
    decreases s.len() - i,
{
    if i < 0 || i >= s.len() {
        -1
    } else if esc {
        find_unq_from(s, c, i + 1, inq, false)
    } else if inq {
        if s[i] == '\\' {
            find_unq_from(s, c, i + 1, true, true)
        } else if s[i] == '"' {
            find_unq_from(s, c, i + 1, false, false)
        } else {
            find_unq_from(s, c, i + 1, true, false)
        }
    } else if s[i] == c {
        i
    } else if s[i] == '"' {
        find_unq_from(s, c, i + 1, true, false)
    } else {
        find_unq_from(s, c, i + 1, false, false)
    }
}

/// The first occurrence of `c` outside quoted tokens, or `-1`.
pub open spec fn find_unq(s: Seq<char>, c: char) -> int {
    find_unq_from(s, c, 0, false, false)
}

/// The fields of a delimiter-joined list, split outside quoted tokens.
pub open spec fn split_top(s: Seq<char>, d: char) -> Seq<Seq<char>>
    decreases s.len(),
{
    let k = find_unq(s, d);
    if !(0 <= k < s.len()) {
        seq![s]
    } else {
        seq![s.subrange(0, k)] + split_top(s.subrange(k + 1, s.len() as int), d)
    }
}

/// The number of leading spaces of a line.
pub open spec fn lead_spaces(s: Seq<char>) -> int
    decreases s.len(),
{
    if s.len() == 0 || s[0] != ' ' {
        0
    } else {
        1 + lead_spaces(s.skip(1))
    }
}

/// A line with a trailing carriage return removed.
pub open spec fn strip_cr(s: Seq<char>) -> Seq<char> {
    if s.len() > 0 && s.last() == '\r' {
        s.drop_last()
    } else {
        s
    }
}

/// The lines of a text, split on line feeds.
pub open spec fn split_lines(s: Seq<char>) -> Seq<Seq<char>>
    decreases s.len(),
{
    let k = find_char(s, '\n');
    if !(0 <= k < s.len()) {
        seq![s]
    } else {
        seq![s.subrange(0, k)] + split_lines(s.subrange(k + 1, s.len() as int))
    }
}

/// A key as written: a quoted key unescapes, a bare key stands verbatim.
/// `None` marks a malformed quoted key.
pub open spec fn parse_key_spec(t: Seq<char>) -> Option<Seq<char>> {
    if t.len() >= 2 && t[0] == '"' && t.last() == '"' {
        unescape_spec(t.subrange(1, t.len() as int - 1))
    } else {
        Some(t)
    }
}

/// Binds a key in an ordered entry list: an existing entry under the same
/// key is replaced in place, a new key is appended.
pub open spec fn insert_entry(
    acc: Seq<(Seq<char>, SpecValue)>,
    k: Seq<char>,
    v: SpecValue,
) -> Seq<(Seq<char>, SpecValue)>
    decreases acc,
{
    if acc.len() == 0 {
        seq![(k, v)]
    } else if acc[0].0 == k {
        seq![(k, v)] + acc.skip(1)
    } else {
        seq![acc[0]] + insert_entry(acc.skip(1), k, v)
    }
}

/// Inserting preserves distinct keys and well-formed values.
pub proof fn lemma_insert_entry_wf(acc: Seq<(Seq<char>, SpecValue)>, k: Seq<char>, v: SpecValue)
    requires
        keys_distinct(acc),
        entries_wf(acc),
        spec_value_wf(v),
    ensures
        keys_distinct(insert_entry(acc, k, v)),
        entries_wf(insert_entry(acc, k, v)),
    decreases acc,
{
    lemma_entries_wf_elem(acc);
    let out = insert_entry(acc, k, v);
    if acc.len() == 0 {
        lemma_entries_wf_from(out);
    } else if acc[0].0 == k {
        assert(out =~= seq![(k, v)] + acc.skip(1));
        assert(forall|i: int| 0 <= i < acc.skip(1).len() ==> acc.skip(1)[i] == acc[i + 1]);
        lemma_entries_wf_from(out);
    } else {
        assert(keys_distinct(acc.skip(1))) by {
            assert(forall|i: int| 0 <= i < acc.skip(1).len() ==> acc.skip(1)[i] == acc[i + 1]);
        }
        assert(entries_wf(acc.skip(1))) by {
            lemma_entries_wf_from(acc.skip(1));
        }
        lemma_insert_entry_wf(acc.skip(1), k, v);
        lemma_insert_entry_keys(acc.skip(1), k, v);
        lemma_entries_wf_elem(insert_entry(acc.skip(1), k, v));
        lemma_entries_wf_from(out);
        assert(keys_distinct(out)) by {
            assert(forall|i: int| 0 <= i < out.len() - 1 ==> out[i + 1] == insert_entry(
                acc.skip(1),
                k,
                v,
            )[i]);
        }
    }
}

/// The keys after an insert are the old keys, plus `k` when it was new.
pub proof fn lemma_insert_entry_keys(acc: Seq<(Seq<char>, SpecValue)>, k: Seq<char>, v: SpecValue)
    ensures
        forall|i: int|
            0 <= i < insert_entry(acc, k, v).len() ==> ((#[trigger] insert_entry(acc, k, v)[i]).0
                == k || exists|j: int| 0 <= j < acc.len() && acc[j].0 == insert_entry(acc, k, v)[i].0),
    decreases acc,
{
    let out = insert_entry(acc, k, v);
    if acc.len() == 0 {
    } else if acc[0].0 == k {
        assert(forall|i: int| 1 <= i < out.len() ==> out[i] == acc[i]);
    } else {
        lemma_insert_entry_keys(acc.skip(1), k, v);
        let sub = insert_entry(acc.skip(1), k, v);
        assert forall|i: int|
            0 <= i < out.len() implies ((#[trigger] out[i]).0 == k || exists|j: int|
            0 <= j < acc.len() && acc[j].0 == out[i].0) by {
            if i == 0 {
                assert(acc[0].0 == out[0].0);
            } else {
                assert(out[i] == sub[i - 1]);
                if sub[i - 1].0 != k {
                    let j = choose|j: int|
                        0 <= j < acc.skip(1).len() && acc.skip(1)[j].0 == sub[i - 1].0;
                    assert(acc[j + 1].0 == out[i].0);
                }
            }
        }
    }
}

/// The trimmed fields of a tabular header, each unquoted when quoted.
pub open spec fn parse_fields_from(toks: Seq<Seq<char>>, i: int) -> Option<Seq<Seq<char>>>
    decreases toks.len() - i,
{
    if i >= toks.len() {
        Some(Seq::empty())
    } else {
        match parse_key_spec(trim_spec(toks[i])) {
            None => None,
            Some(f) => match parse_fields_from(toks, i + 1) {
                None => None,
                Some(rest) => Some(seq![f] + rest),
            },
        }
    }
}

/// One data row as an object: tokens bound to fields positionally.
pub open spec fn row_obj_from(
    fields: Seq<Seq<char>>,
    toks: Seq<Seq<char>>,
    i: int,
    acc: Seq<(Seq<char>, SpecValue)>,
) -> Option<Seq<(Seq<char>, SpecValue)>>
    decreases fields.len() - i,
{
    if i >= fields.len() || i >= toks.len() {
        Some(acc)
    } else {
        match parse_scalar_spec(toks[i]) {
            None => None,
            Some(v) => row_obj_from(fields, toks, i + 1, insert_entry(acc, fields[i], v)),
        }
    }
}

/// The scalars of an inline array body.
pub open spec fn inline_values_from(toks: Seq<Seq<char>>, i: int) -> Option<Seq<SpecValue>>
    decreases toks.len() - i,
{
    if i >= toks.len() {
        Some(Seq::empty())
    } else {
        match parse_scalar_spec(toks[i]) {
            None => None,
            Some(v) => match inline_values_from(toks, i + 1) {
                None => None,
                Some(rest) => Some(seq![v] + rest),
            },
        }
    }
}


/// The index of the first non-blank line at or after `i`.
pub open spec fn skip_blanks(lines: Seq<Seq<char>>, i: int) -> int
    decreases lines.len() - i,
{
    if i < 0 || i >= lines.len() {
        lines.len() as int
    } else if trim_spec(strip_cr(lines[i])).len() == 0 {
        skip_blanks(lines, i + 1)
    } else {
        i
    }
}

/// A line whose first character after the indentation is a dash.
pub open spec fn dash_line(raw: Seq<char>) -> bool {
    let l = lead_spaces(raw);
    l < raw.len() && raw[l] == '-'
}

/// The data rows following a tabular header at indentation `min_ind`: every
/// immediately following deeper, non-blank line, split on the delimiter and
/// zipped against the fields. A field-count mismatch is an error in strict
/// mode and skips the row otherwise.
pub open spec fn take_rows(
    lines: Seq<Seq<char>>,
    j: int,
    min_ind: int,
    fields: Seq<Seq<char>>,
    d: char,
    strict: bool,
) -> Option<(Seq<SpecValue>, int)>
    decreases lines.len() - j,
{
    if j < 0 || j >= lines.len() {
        Some((Seq::empty(), j))
    } else {
        let raw = strip_cr(lines[j]);
        if trim_spec(raw).len() == 0 || lead_spaces(raw) <= min_ind {
            Some((Seq::empty(), j))
        } else {
            let toks = split_top(trim_spec(raw), d);
            if toks.len() != fields.len() {
                if strict {
                    None
                } else {
                    take_rows(lines, j + 1, min_ind, fields, d, strict)
                }
            } else {
                match row_obj_from(fields, toks, 0, Seq::empty()) {
                    None => None,
                    Some(row) => match take_rows(lines, j + 1, min_ind, fields, d, strict) {
                        None => None,
                        Some((rest, end)) => Some((seq![SpecValue::Obj(row)] + rest, end)),
                    },
                }
            }
        }
    }
}

/// The array value a header line introduces: a tabular block when it carries
/// a field list, an inline array when values follow the colon, and otherwise
/// the dash items on the deeper lines (none: the empty array). A header with
/// both a field list and inline values is malformed; strict mode rejects it.
pub open spec fn dec_header_value(
    lines: Seq<Seq<char>>,
    j: int,
    lead: int,
    kp: Seq<char>,
    vp: Seq<char>,
    strict: bool,
    d: char,
) -> Option<(SpecValue, int)>
    decreases lines.len() - j, 0int,
{
    if j < 0 || j >= lines.len() {
        None
    } else {
        let fb = find_unq(kp, '{');
        let gb = find_unq(kp, '}');
        if fb >= 0 && vp.len() == 0 {
            if gb <= fb {
                None
            } else {
                match parse_fields_from(split_top(kp.subrange(fb + 1, gb), d), 0) {
                    None => None,
                    Some(fields) => match take_rows(lines, j + 1, lead, fields, d, strict) {
                        None => None,
                        Some((rows, end)) => Some(
                            (
                                SpecValue::Arr(rows),
                                if end > j {
                                    end
                                } else {
                                    j + 1
                                },
                            ),
                        ),
                    },
                }
            }
        } else if fb >= 0 && strict {
            None
        } else if vp.len() > 0 {
            match inline_values_from(split_top(vp, d), 0) {
                None => None,
                Some(vals) => Some((SpecValue::Arr(vals), j + 1)),
            }
        } else {
            let c0 = skip_blanks(lines, j + 1);
            let c = if c0 < j + 1 {
                j + 1
            } else {
                c0
            };
            if c < lines.len() && lead_spaces(strip_cr(lines[c])) > lead && dash_line(
                strip_cr(lines[c]),
            ) {
                match dec_items(lines, c, lead_spaces(strip_cr(lines[c])), Seq::empty(), strict, d) {
                    None => None,
                    Some((items, end)) => Some(
                        (
                            SpecValue::Arr(items),
                            if end > j {
                                end
                            } else {
                                j + 1
                            },
                        ),
                    ),
                }
            } else {
                Some((SpecValue::Arr(Seq::empty()), j + 1))
            }
        }
    }
}

/// The dash items of an expanded array at indentation `ind`: a scalar per
/// item; an anonymous `[..]` header opens an array item; `- key: value`
/// opens an object item whose remaining entries stand on the deeper
/// following lines; and `- key:` opens an object item whose first value is
/// the block on the deeper following lines. An item carrying a named header
/// is an error in strict mode and skipped otherwise.
pub open spec fn dec_items(
    lines: Seq<Seq<char>>,
    i: int,
    ind: int,
    acc: Seq<SpecValue>,
    strict: bool,
    d: char,
) -> Option<(Seq<SpecValue>, int)>
    decreases lines.len() - i, 1int,
{
    if i < 0 || i >= lines.len() {
        Some((acc, i))
    } else {
        let raw = strip_cr(lines[i]);
        if trim_spec(raw).len() == 0 {
            dec_items(lines, i + 1, ind, acc, strict, d)
        } else {
            let lead = lead_spaces(raw);
            if lead < ind {
                Some((acc, i))
            } else if lead > ind || raw[ind] != '-' {
                if strict {
                    None
                } else {
                    dec_items(lines, i + 1, ind, acc, strict, d)
                }
            } else {
                let b0 = raw.subrange(ind + 1, raw.len() as int);
                let body = if b0.len() > 0 && b0[0] == ' ' {
                    b0.subrange(1, b0.len() as int)
                } else {
                    b0
                };
                let sep = find_unq(body, ':');
                if sep < 0 {
                    match parse_scalar_spec(body) {
                        None => None,
                        Some(v) => dec_items(lines, i + 1, ind, acc.push(v), strict, d),
                    }
                } else {
                    let kp = trim_spec(body.subrange(0, sep));
                    let vp = trim_spec(body.subrange(sep + 1, body.len() as int));
                    let b = find_unq(kp, '[');
                    if b >= 0 {
                        match parse_key_spec(trim_spec(kp.subrange(0, b))) {
                            None => None,
                            Some(nm) => {
                                if nm.len() == 0 {
                                    match dec_header_value(lines, i, ind, kp, vp, strict, d) {
                                        None => None,
                                        Some((av, next)) => dec_items(
                                            lines,
                                            if i < next <= lines.len() {
                                                next
                                            } else {
                                                i + 1
                                            },
                                            ind,
                                            acc.push(av),
                                            strict,
                                            d,
                                        ),
                                    }
                                } else if strict {
                                    None
                                } else {
                                    dec_items(lines, i + 1, ind, acc, strict, d)
                                }
                            },
                        }
                    } else {
                        match parse_key_spec(kp) {
                            None => None,
                            Some(k) => {
                                if vp.len() > 0 {
                                    match parse_scalar_spec(vp) {
                                        None => None,
                                        Some(v) => dec_item_entries(
                                            lines,
                                            i,
                                            ind,
                                            acc,
                                            seq![(k, v)],
                                            i + 1,
                                            strict,
                                            d,
                                        ),
                                    }
                                } else {
                                    let c0 = skip_blanks(lines, i + 1);
                                    let c = if c0 < i + 1 {
                                        i + 1
                                    } else {
                                        c0
                                    };
                                    if c < lines.len() && lead_spaces(strip_cr(lines[c])) > ind {
                                        match dec_child_value(lines, c, strict, d) {
                                            None => None,
                                            Some((v, nxt)) => dec_item_entries(
                                                lines,
                                                i,
                                                ind,
                                                acc,
                                                seq![(k, v)],
                                                if i < nxt <= lines.len() {
                                                    nxt
                                                } else {
                                                    i + 1
                                                },
                                                strict,
                                                d,
                                            ),
                                        }
                                    } else {
                                        dec_item_entries(
                                            lines,
                                            i,
                                            ind,
                                            acc,
                                            seq![(k, SpecValue::Obj(Seq::empty()))],
                                            i + 1,
                                            strict,
                                            d,
                                        )
                                    }
                                }
                            },
                        }
                    }
                }
            }
        }
    }
}

/// Finishes an object item opened on the dash line at `i`: the remaining
/// entries stand on the following lines deeper than the dash, starting at
/// `from`; without any, the item is the first entry alone.
pub open spec fn dec_item_entries(
    lines: Seq<Seq<char>>,
    i: int,
    ind: int,
    acc: Seq<SpecValue>,
    first: Seq<(Seq<char>, SpecValue)>,
    from: int,
    strict: bool,
    d: char,
) -> Option<(Seq<SpecValue>, int)>
    decreases lines.len() - i, 0int,
{
    if from <= i || from > lines.len() {
        None
    } else {
        let c0 = skip_blanks(lines, from);
        let c = if c0 < from {
            from
        } else {
            c0
        };
        if c < lines.len() && lead_spaces(strip_cr(lines[c])) > ind {
            match dec_entries(lines, c, lead_spaces(strip_cr(lines[c])), first, strict, d) {
                None => None,
                Some((es, next)) => dec_items(
                    lines,
                    if i < next <= lines.len() {
                        next
                    } else {
                        i + 1
                    },
                    ind,
                    acc.push(SpecValue::Obj(es)),
                    strict,
                    d,
                ),
            }
        } else {
            dec_items(lines, from, ind, acc.push(SpecValue::Obj(first)), strict, d)
        }
    }
}

/// The value bound to a pending key, read off the first deeper line: dash
/// items make an array, an anonymous header makes the array it introduces,
/// and anything else opens a nested object block at that line's indentation.
pub open spec fn dec_child_value(
    lines: Seq<Seq<char>>,
    c: int,
    strict: bool,
    d: char,
) -> Option<(SpecValue, int)>
    decreases lines.len() - c, 4int,
{
    if c < 0 || c >= lines.len() {
        None
    } else {
        let raw = strip_cr(lines[c]);
        let lead = lead_spaces(raw);
        if dash_line(raw) {
            match dec_items(lines, c, lead, Seq::empty(), strict, d) {
                None => None,
                Some((items, next)) => Some((SpecValue::Arr(items), next)),
            }
        } else {
            let sep = find_unq(raw, ':');
            if sep < 0 {
                if strict {
                    None
                } else {
                    Some((SpecValue::Obj(Seq::empty()), c))
                }
            } else {
                let kp = trim_spec(raw.subrange(0, sep));
                let vp = trim_spec(raw.subrange(sep + 1, raw.len() as int));
                let b = find_unq(kp, '[');
                if b >= 0 && trim_spec(kp.subrange(0, b)).len() == 0 {
                    dec_header_value(lines, c, lead, kp, vp, strict, d)
                } else {
                    match dec_entries(lines, c, lead, Seq::empty(), strict, d) {
                        None => None,
                        Some((es, next)) => Some((SpecValue::Obj(es), next)),
                    }
                }
            }
        }
    }
}

/// The entries of an object block at indentation `ind`: one entry per line,
/// scalar pairs inline, container values on the deeper following lines, and
/// named array headers. An anonymous header, a misindented line and a line
/// without a colon are errors in strict mode and skipped otherwise; a dedent
/// closes the block.
pub open spec fn dec_entries(
    lines: Seq<Seq<char>>,
    i: int,
    ind: int,
    acc: Seq<(Seq<char>, SpecValue)>,
    strict: bool,
    d: char,
) -> Option<(Seq<(Seq<char>, SpecValue)>, int)>
    decreases lines.len() - i, 3int,
{
    if i < 0 || i >= lines.len() {
        Some((acc, i))
    } else {
        let raw = strip_cr(lines[i]);
        if trim_spec(raw).len() == 0 {
            dec_entries(lines, i + 1, ind, acc, strict, d)
        } else {
            let lead = lead_spaces(raw);
            if lead < ind {
                Some((acc, i))
            } else if lead > ind {
                if strict {
                    None
                } else {
                    dec_entries(lines, i + 1, ind, acc, strict, d)
                }
            } else {
                let sep = find_unq(raw, ':');
                if sep < 0 {
                    if strict {
                        None
                    } else {
                        dec_entries(lines, i + 1, ind, acc, strict, d)
                    }
                } else {
                    let kp = trim_spec(raw.subrange(0, sep));
                    let vp = trim_spec(raw.subrange(sep + 1, raw.len() as int));
                    let b = find_unq(kp, '[');
                    if b >= 0 {
                        match parse_key_spec(trim_spec(kp.subrange(0, b))) {
                            None => None,
                            Some(nm) => {
                                if nm.len() == 0 {
                                    if strict {
                                        None
                                    } else {
                                        dec_entries(lines, i + 1, ind, acc, strict, d)
                                    }
                                } else {
                                    match dec_header_value(lines, i, lead, kp, vp, strict, d) {
                                        None => None,
                                        Some((av, next)) => dec_entries(
                                            lines,
                                            if i < next <= lines.len() {
                                                next
                                            } else {
                                                i + 1
                                            },
                                            ind,
                                            insert_entry(acc, nm, av),
                                            strict,
                                            d,
                                        ),
                                    }
                                }
                            },
                        }
                    } else {
                        match parse_key_spec(kp) {
                            None => None,
                            Some(k) => {
                                if vp.len() > 0 {
                                    match parse_scalar_spec(vp) {
                                        None => None,
                                        Some(v) => dec_entries(
                                            lines,
                                            i + 1,
                                            ind,
                                            insert_entry(acc, k, v),
                                            strict,
                                            d,
                                        ),
                                    }
                                } else {
                                    let c0 = skip_blanks(lines, i + 1);
                                    let c = if c0 < i + 1 {
                                        i + 1
                                    } else {
                                        c0
                                    };
                                    if c < lines.len() && lead_spaces(strip_cr(lines[c])) > lead {
                                        match dec_child_value(lines, c, strict, d) {
                                            None => None,
                                            Some((v, next)) => dec_entries(
                                                lines,
                                                if i < next <= lines.len() {
                                                    next
                                                } else {
                                                    i + 1
                                                },
                                                ind,
                                                insert_entry(acc, k, v),
                                                strict,
                                                d,
                                            ),
                                        }
                                    } else {
                                        dec_entries(
                                            lines,
                                            i + 1,
                                            ind,
                                            insert_entry(acc, k, SpecValue::Obj(Seq::empty())),
                                            strict,
                                            d,
                                        )
                                    }
                                }
                            },
                        }
                    }
                }
            }
        }
    }
}

/// The whole decoder: split into lines, decode the top-level object block at
/// indentation zero.
pub open spec fn decode_spec(text: Seq<char>, strict: bool, d: char) -> Option<SpecValue> {
    match dec_entries(split_lines(text), 0, 0, Seq::empty(), strict, d) {
        None => None,
        Some((es, _)) => Some(SpecValue::Obj(es)),
    }
}

/// A copy of a subrange of characters.
fn subvec(s: &Vec<char>, a: usize, b: usize) -> (r: Vec<char>)
    requires
        a <= b <= s@.len(),
    ensures
        r@ == s@.subrange(a as int, b as int),
{
    let mut r: Vec<char> = Vec::new();
    let mut i = a;
    while i < b
        invariant
            a <= i <= b <= s@.len(),
            r@ =~= s@.subrange(a as int, i as int),
        decreases b - i,
    {
        r.push(s[i]);
        proof {
            assert(r@ =~= s@.subrange(a as int, i as int + 1));
        }
        i = i + 1;
    }
    r
}

/// Finds the first occurrence of a character outside quoted tokens.
#[verifier::loop_isolation(false)]
fn find_unq_exec(s: &Vec<char>, c: char) -> (r: Option<usize>)
    ensures
        match r {
            Some(k) => find_unq(s@, c) == k as int && k < s@.len(),
            None => find_unq(s@, c) == -1,
        },
{
    let n = s.len();
    let mut i: usize = 0;
    let mut inq = false;
    let mut esc = false;
    while i < n
        invariant
            i <= n,
            find_unq(s@, c) == find_unq_from(s@, c, i as int, inq, esc),
        decreases n - i,
    {
        let ch = s[i];
        if esc {
            esc = false;
        } else if inq {
            if ch == '\\' {
                esc = true;
            } else if ch == '"' {
                inq = false;
            }
        } else if ch == c {
            return Some(i);
        } else if ch == '"' {
            inq = true;
        }
        i = i + 1;
    }
    None
}

/// Finds the first occurrence of a character.
#[verifier::loop_isolation(false)]
fn find_char_exec(s: &Vec<char>, c: char) -> (r: Option<usize>)
    ensures
        match r {
            Some(k) => find_char(s@, c) == k as int && k < s@.len(),
            None => find_char(s@, c) == -1,
        },
{
    let n = s.len();
    let mut i: usize = 0;
    while i < n
        invariant
            i <= n,
            forall|t: int| 0 <= t < i ==> s@[t] != c,
        decreases n - i,
    {
        if s[i] == c {
            proof {
                lemma_find_char_at(s@, c, i as int);
            }
            return Some(i);
        }
        i = i + 1;
    }
    proof {
        lemma_find_char_none(s@, c);
    }
    None
}

/// Splits a list on the delimiter, outside quoted tokens.
#[verifier::loop_isolation(false)]
#[verifier::rlimit(100)]
#[verifier::spinoff_prover]
fn split_top_exec(s: &Vec<char>, d: char) -> (r: Vec<Vec<char>>)
    ensures
        r@.len() == split_top(s@, d).len(),
        forall|i: int| 0 <= i < r@.len() ==> (#[trigger] r@[i])@ == split_top(s@, d)[i],
{
    let n = s.len();
    let mut r: Vec<Vec<char>> = Vec::new();
    let mut start: usize = 0;
    proof {
        assert(s@.subrange(0, n as int) =~= s@);
        assert(lines_view(r@) + split_top(s@.subrange(start as int, n as int), d) =~= split_top(
            s@,
            d,
        ));
    }
    loop
        invariant
            start <= n == s@.len(),
            split_top(s@, d) =~= lines_view(r@) + split_top(
                s@.subrange(start as int, n as int),
                d,
            ),
        decreases n - start,
    {
        let ghost rest = s@.subrange(start as int, n as int);
        let mut k = start;
        let mut inq = false;
        let mut esc = false;
        while k < n
            invariant
                start <= k <= n,
                rest == s@.subrange(start as int, n as int),
                find_unq(rest, d) == find_unq_from(rest, d, k - start, inq, esc),
            decreases n - k,
        {
            let ch = s[k];
            proof {
                assert(rest[k - start] == ch);
            }
            if esc {
                esc = false;
            } else if inq {
                if ch == '\\' {
                    esc = true;
                } else if ch == '"' {
                    inq = false;
                }
            } else if ch == d {
                break ;
            } else if ch == '"' {
                inq = true;
            }
            k = k + 1;
        }
        if k >= n {
            proof {
                assert(find_unq(rest, d) == -1);
                assert(split_top(rest, d) =~= seq![rest]);
            }
            let piece = subvec(s, start, n);
            let ghost old_r = r@;
            r.push(piece);
            proof {
                assert(lines_view(r@) =~= lines_view(old_r).push(rest));
                assert(split_top(s@, d) =~= lines_view(r@));
                assert(forall|i: int|
                    0 <= i < r@.len() ==> (#[trigger] r@[i])@ == lines_view(r@)[i]);
            }
            return r;
        }
        proof {
            assert(find_unq(rest, d) == k - start);
            assert(split_top(rest, d) =~= seq![rest.subrange(0, k - start)] + split_top(
                rest.subrange(k - start + 1, rest.len() as int),
                d,
            ));
            assert(rest.subrange(0, k - start) =~= s@.subrange(start as int, k as int));
            assert(rest.subrange(k - start + 1, rest.len() as int) =~= s@.subrange(
                k as int + 1,
                n as int,
            ));
        }
        let piece = subvec(s, start, k);
        let ghost old_r = r@;
        r.push(piece);
        proof {
            assert(lines_view(r@) =~= lines_view(old_r).push(s@.subrange(
                start as int,
                k as int,
            )));
            assert(split_top(s@, d) =~= lines_view(r@) + split_top(
                s@.subrange(k as int + 1, n as int),
                d,
            ));
        }
        start = k + 1;
    }
}

/// Splits a text into its lines.
#[verifier::loop_isolation(false)]
#[verifier::rlimit(100)]
#[verifier::spinoff_prover]
fn split_lines_exec(s: &Vec<char>) -> (r: Vec<Vec<char>>)
    ensures
        r@.len() == split_lines(s@).len(),
        forall|i: int| 0 <= i < r@.len() ==> (#[trigger] r@[i])@ == split_lines(s@)[i],
{
    let n = s.len();
    let mut r: Vec<Vec<char>> = Vec::new();
    let mut start: usize = 0;
    proof {
        assert(s@.subrange(0, n as int) =~= s@);
        assert(lines_view(r@) + split_lines(s@.subrange(start as int, n as int)) =~= split_lines(
            s@,
        ));
    }
    loop
        invariant
            start <= n == s@.len(),
            split_lines(s@) =~= lines_view(r@) + split_lines(s@.subrange(start as int, n as int)),
        decreases n - start,
    {
        let ghost rest = s@.subrange(start as int, n as int);
        let mut k = start;
        while k < n && s[k] != '\n'
            invariant
                start <= k <= n,
                forall|t: int| start <= t < k ==> s@[t] != '\n',
            decreases n - k,
        {
            k = k + 1;
        }
        proof {
            assert(forall|t: int| 0 <= t < k - start ==> rest[t] == s@[start + t] && rest[t] != '\n');
        }
        if k >= n {
            proof {
                lemma_find_char_none(rest, '\n');
                assert(split_lines(rest) =~= seq![rest]);
            }
            let piece = subvec(s, start, n);
            let ghost old_r = r@;
            r.push(piece);
            proof {
                assert(lines_view(r@) =~= lines_view(old_r).push(rest));
                assert(split_lines(s@) =~= lines_view(r@));
                assert(forall|i: int|
                    0 <= i < r@.len() ==> (#[trigger] r@[i])@ == lines_view(r@)[i]);
            }
            return r;
        }
        proof {
            assert(rest[k - start] == '\n');
            lemma_find_char_at(rest, '\n', k - start);
            assert(split_lines(rest) =~= seq![rest.subrange(0, k - start)] + split_lines(
                rest.subrange(k - start + 1, rest.len() as int),
            ));
            assert(rest.subrange(0, k - start) =~= s@.subrange(start as int, k as int));
            assert(rest.subrange(k - start + 1, rest.len() as int) =~= s@.subrange(
                k as int + 1,
                n as int,
            ));
        }
        let piece = subvec(s, start, k);
        let ghost old_r = r@;
        r.push(piece);
        proof {
            assert(lines_view(r@) =~= lines_view(old_r).push(s@.subrange(
                start as int,
                k as int,
            )));
            assert(split_lines(s@) =~= lines_view(r@) + split_lines(
                s@.subrange(k as int + 1, n as int),
            ));
        }
        start = k + 1;
    }
}

/// Counts the leading spaces of a line.
#[verifier::loop_isolation(false)]
fn lead_spaces_exec(s: &Vec<char>) -> (r: usize)
    ensures
        r as int == lead_spaces(s@),
{
    let n = s.len();
    let mut i: usize = 0;
    proof {
        assert(s@.skip(0) =~= s@);
    }
    while i < n && s[i] == ' '
        invariant
            i <= n,
            lead_spaces(s@) == i + lead_spaces(s@.skip(i as int)),
        decreases n - i,
    {
        proof {
            assert(s@.skip(i as int)[0] == s@[i as int]);
            assert(s@.skip(i as int).skip(1) =~= s@.skip(i as int + 1));
        }
        i = i + 1;
    }
    proof {
        if i < n {
            assert(s@.skip(i as int)[0] == s@[i as int]);
        }
        assert(lead_spaces(s@.skip(i as int)) == 0);
    }
    i
}

/// Strips a trailing carriage return.
fn strip_cr_exec(s: &Vec<char>) -> (r: Vec<char>)
    ensures
        r@ == strip_cr(s@),
{
    let n = s.len();
    if n > 0 && s[n - 1] == '\r' {
        subvec(s, 0, n - 1)
    } else {
        subvec(s, 0, n)
    }
}

/// Parses a key token, unescaping it when quoted.
fn parse_key_exec(t: &Vec<char>) -> (r: Result<String, ToonError>)
    ensures
        match parse_key_spec(t@) {
            Some(k) => r is Ok && r.unwrap()@ == k,
            None => r is Err && r.unwrap_err() is DecodingError,
        },
{
    let n = t.len();
    if n >= 2 && t[0] == '"' && t[n - 1] == '"' {
        let inner = subvec(t, 1, n - 1);
        let u = unescape_chars(&inner)?;
        Ok(crate::chars::chars_to_string(&u))
    } else {
        Ok(crate::chars::chars_to_string(t))
    }
}


/// The models of a sequence of lines.
pub open spec fn lines_view(ls: Seq<Vec<char>>) -> Seq<Seq<char>> {
    ls.map_values(|l: Vec<char>| l@)
}

/// The models of a sequence of field names.
pub open spec fn fields_view(fs: Seq<String>) -> Seq<Seq<char>> {
    fs.map_values(|f: String| f@)
}

/// Replacing the first entry under a present key realizes `insert_entry`.
proof fn lemma_insert_found(
    acc: Seq<(Seq<char>, SpecValue)>,
    k: Seq<char>,
    v: SpecValue,
    idx: int,
)
    requires
        0 <= idx < acc.len(),
        acc[idx].0 == k,
        forall|t: int| 0 <= t < idx ==> (#[trigger] acc[t]).0 != k,
    ensures
        insert_entry(acc, k, v) == acc.update(idx, (k, v)),
    decreases acc,
{
    if idx == 0 {
        assert(insert_entry(acc, k, v) =~= acc.update(0, (k, v)));
    } else {
        assert(forall|t: int| 0 <= t < acc.skip(1).len() ==> acc.skip(1)[t] == acc[t + 1]);
        lemma_insert_found(acc.skip(1), k, v, idx - 1);
        assert(insert_entry(acc, k, v) =~= acc.update(idx, (k, v)));
    }
}

/// Appending a fresh key realizes `insert_entry`.
proof fn lemma_insert_absent(acc: Seq<(Seq<char>, SpecValue)>, k: Seq<char>, v: SpecValue)
    requires
        forall|t: int| 0 <= t < acc.len() ==> (#[trigger] acc[t]).0 != k,
    ensures
        insert_entry(acc, k, v) == acc.push((k, v)),
    decreases acc,
{
    if acc.len() > 0 {
        assert(forall|t: int| 0 <= t < acc.skip(1).len() ==> acc.skip(1)[t] == acc[t + 1]);
        lemma_insert_absent(acc.skip(1), k, v);
    }
    assert(insert_entry(acc, k, v) =~= acc.push((k, v)));
}

/// Binds a key in the accumulated entries, replacing any earlier binding.
#[verifier::loop_isolation(false)]
fn insert_exec(es: &mut Vec<(String, Value)>, k: String, v: Value)
    ensures
        view_entries(final(es)@) == insert_entry(view_entries(old(es)@), k@, v@),
{
    proof {
        lemma_view_entries(es@);
    }
    let ghost old_es = es@;
    let ghost ves = view_entries(es@);
    let n = es.len();
    let mut t: usize = 0;
    while t < n
        invariant
            t <= n,
            es@ == old(es)@,
            forall|u: int| 0 <= u < t ==> (#[trigger] ves[u]).0 != k@,
        decreases n - t,
    {
        if es[t].0.eq(&k) {
            proof {
                lemma_insert_found(ves, k@, v@, t as int);
            }
            es.set(t, (k, v));
            proof {
                lemma_view_entries(es@);
                lemma_view_entries(old_es);
                assert(es@ =~= old_es.update(t as int, (k, v)));
                assert forall|u: int| 0 <= u < view_entries(es@).len() implies view_entries(
                    es@,
                )[u] == ves.update(t as int, (k@, v@))[u] by {
                    assert(view_entries(es@)[u] == ((#[trigger] es@[u]).0@, es@[u].1@));
                    assert(ves[u] == (old_es[u].0@, old_es[u].1@));
                }
                assert(view_entries(es@) =~= ves.update(t as int, (k@, v@)));
            }
            return ;
        }
        t = t + 1;
    }
    proof {
        lemma_insert_absent(ves, k@, v@);
    }
    es.push((k, v));
    proof {
        lemma_view_entries(es@);
        lemma_view_entries(old_es);
        assert(es@ =~= old_es.push((k, v)));
        assert forall|u: int| 0 <= u < view_entries(es@).len() implies view_entries(es@)[u]
            == ves.push((k@, v@))[u] by {
            assert(view_entries(es@)[u] == ((#[trigger] es@[u]).0@, es@[u].1@));
            if u < ves.len() {
                assert(ves[u] == (old_es[u].0@, old_es[u].1@));
            }
        }
        assert(view_entries(es@) =~= ves.push((k@, v@)));
    }
}

/// Parses the header field list.
#[verifier::loop_isolation(false)]
#[verifier::rlimit(100)]
#[verifier::spinoff_prover]
fn parse_fields_exec(toks: &Vec<Vec<char>>, i0: usize) -> (r: Result<Vec<String>, ToonError>)
    requires
        i0 <= toks@.len(),
    ensures
        match parse_fields_from(lines_view(toks@), i0 as int) {
            Some(fs) => r is Ok && r.unwrap()@.len() == fs.len() && forall|t: int|
                0 <= t < fs.len() ==> (#[trigger] r.unwrap()@[t])@ == fs[t],
            None => r is Err && r.unwrap_err() is DecodingError,
        },
{
    let ghost tv = lines_view(toks@);
    let n = toks.len();
    let mut i = i0;
    let mut out: Vec<String> = Vec::new();
    while i < n
        invariant
            i0 <= i <= n == tv.len(),
            parse_fields_from(tv, i0 as int) is Some <==> parse_fields_from(tv, i as int) is Some,
            parse_fields_from(tv, i0 as int) is Some ==> parse_fields_from(tv, i0 as int).unwrap()
                =~= fields_view(out@) + parse_fields_from(tv, i as int).unwrap(),
        decreases n - i,
    {
        proof {
            assert(tv[i as int] == toks@[i as int]@);
        }
        let t0 = trim_chars(&toks[i]);
        let f = parse_key_exec(&t0)?;
        let ghost old_out = out@;
        out.push(f);
        proof {
            assert(fields_view(out@) =~= fields_view(old_out).push(out@.last()@));
            if parse_fields_from(tv, i as int + 1) is Some {
                assert(parse_fields_from(tv, i as int).unwrap() =~= seq![out@.last()@]
                    + parse_fields_from(tv, i as int + 1).unwrap());
                assert(fields_view(old_out) + parse_fields_from(tv, i as int).unwrap()
                    =~= fields_view(out@) + parse_fields_from(tv, i as int + 1).unwrap());
            }
        }
        i = i + 1;
    }
    proof {
        assert(parse_fields_from(tv, n as int) == Some(Seq::<Seq<char>>::empty()));
        if parse_fields_from(tv, i0 as int) is Some {
            assert(parse_fields_from(tv, i0 as int).unwrap() =~= fields_view(out@));
        }
    }
    Ok(out)
}

/// Builds one data row object.
#[verifier::loop_isolation(false)]
#[verifier::rlimit(100)]
#[verifier::spinoff_prover]
fn row_obj_exec(
    fields: &Vec<String>,
    toks: &Vec<Vec<char>>,
    i0: usize,
    acc0: Vec<(String, Value)>,
) -> (r: Result<Vec<(String, Value)>, ToonError>)
    requires
        i0 <= fields@.len(),
        keys_distinct(view_entries(acc0@)),
        entries_wf(view_entries(acc0@)),
    ensures
        match row_obj_from(
            fields_view(fields@),
            lines_view(toks@),
            i0 as int,
            view_entries(acc0@),
        ) {
            Some(row) => r is Ok && view_entries(r.unwrap()@) == row && keys_distinct(row)
                && entries_wf(row),
            None => r is Err && r.unwrap_err() is DecodingError,
        },
{
    let ghost fseq = fields_view(fields@);
    let ghost tv = lines_view(toks@);
    let ghost acc0v = view_entries(acc0@);
    let fn0 = fields.len();
    let mut i = i0;
    let mut acc = acc0;
    while i < fn0 && i < toks.len()
        invariant
            i0 <= i,
            i <= fn0 == fseq.len(),
            keys_distinct(view_entries(acc@)),
            entries_wf(view_entries(acc@)),
            row_obj_from(fseq, tv, i0 as int, acc0v) == row_obj_from(
                fseq,
                tv,
                i as int,
                view_entries(acc@),
            ),
        decreases fn0 - i,
    {
        proof {
            assert(tv[i as int] == toks@[i as int]@);
            assert(fseq[i as int] == fields@[i as int]@);
        }
        let v = parse_scalar(&toks[i])?;
        proof {
            lemma_insert_entry_wf(view_entries(acc@), fields@[i as int]@, v@);
        }
        insert_exec(&mut acc, fields[i].clone(), v);
        i = i + 1;
    }
    Ok(acc)
}

/// Parses the scalars of an inline array body.
#[verifier::loop_isolation(false)]
#[verifier::rlimit(100)]
#[verifier::spinoff_prover]
fn inline_values_exec(toks: &Vec<Vec<char>>, i0: usize) -> (r: Result<Vec<Value>, ToonError>)
    requires
        i0 <= toks@.len(),
    ensures
        match inline_values_from(lines_view(toks@), i0 as int) {
            Some(vals) => r is Ok && view_items(r.unwrap()@) == vals && items_wf(vals),
            None => r is Err && r.unwrap_err() is DecodingError,
        },
{
    let ghost tv = lines_view(toks@);
    let n = toks.len();
    let mut i = i0;
    let mut out: Vec<Value> = Vec::new();
    proof {
        assert(view_items(out@) =~= Seq::<SpecValue>::empty());
        assert(items_wf(Seq::<SpecValue>::empty()));
    }
    while i < n
        invariant
            i0 <= i <= n == tv.len(),
            items_wf(view_items(out@)),
            inline_values_from(tv, i0 as int) is Some <==> inline_values_from(tv, i as int)
                is Some,
            inline_values_from(tv, i0 as int) is Some ==> inline_values_from(
                tv,
                i0 as int,
            ).unwrap() =~= view_items(out@) + inline_values_from(tv, i as int).unwrap(),
        decreases n - i,
    {
        proof {
            assert(tv[i as int] == toks@[i as int]@);
        }
        let v = parse_scalar(&toks[i])?;
        let ghost old_out = out@;
        out.push(v);
        proof {
            assert(out@.drop_last() =~= old_out);
            assert(view_items(out@) == view_items(old_out).push(out@.last()@));
            assert(view_items(out@).drop_last() =~= view_items(old_out));
            assert(items_wf(view_items(out@)));
            if inline_values_from(tv, i as int + 1) is Some {
                assert(inline_values_from(tv, i as int).unwrap() =~= seq![out@.last()@]
                    + inline_values_from(tv, i as int + 1).unwrap());
                assert(view_items(old_out) + inline_values_from(tv, i as int).unwrap()
                    =~= view_items(out@) + inline_values_from(tv, i as int + 1).unwrap());
            }
        }
        i = i + 1;
    }
    proof {
        assert(inline_values_from(tv, n as int) == Some(Seq::<SpecValue>::empty()));
        if inline_values_from(tv, i0 as int) is Some {
            assert(inline_values_from(tv, i0 as int).unwrap() =~= view_items(out@));
        }
    }
    Ok(out)
}

/// A line whose trimmed content is non-empty has a character after its
/// leading spaces.
proof fn lemma_nonblank_lead(s: Seq<char>)
    requires
        trim_spec(s).len() > 0,
    ensures
        lead_spaces(s) < s.len(),
    decreases s.len(),
{
    if s.len() == 0 {
        assert(trim_start_spec(s) == s);
        assert(trim_spec(s).len() == 0);
    } else if s[0] == ' ' {
        assert(trim_start_spec(s) == trim_start_spec(s.skip(1)));
        lemma_nonblank_lead(s.skip(1));
    }
}

/// Finds the first non-blank line at or after `i`.
#[verifier::loop_isolation(false)]
fn skip_blanks_exec(lines: &Vec<Vec<char>>, i: usize) -> (r: usize)
    requires
        i <= lines@.len(),
    ensures
        r as int == skip_blanks(lines_view(lines@), i as int),
        i <= r <= lines@.len(),
{
    let ghost lv = lines_view(lines@);
    let n = lines.len();
    let mut cur = i;
    while cur < n
        invariant
            i <= cur <= n == lv.len(),
            skip_blanks(lv, i as int) == skip_blanks(lv, cur as int),
        decreases n - cur,
    {
        proof {
            assert(lv[cur as int] == lines@[cur as int]@);
        }
        let raw = strip_cr_exec(&lines[cur]);
        let tr = trim_chars(&raw);
        if tr.len() > 0 {
            return cur;
        }
        cur = cur + 1;
    }
    cur
}

/// Consumes the data rows following a tabular header.
#[verifier::loop_isolation(false)]
#[verifier::rlimit(100)]
#[verifier::spinoff_prover]
fn take_rows_exec(
    lines: &Vec<Vec<char>>,
    j0: usize,
    min_ind: usize,
    fields: &Vec<String>,
    d: char,
    strict: bool,
) -> (r: Result<(Vec<Value>, usize), ToonError>)
    requires
        j0 <= lines@.len(),
    ensures
        match take_rows(lines_view(lines@), j0 as int, min_ind as int, fields_view(fields@), d, strict) {
            Some((rows, end)) => r is Ok && view_items(r.unwrap().0@) == rows && items_wf(rows)
                && r.unwrap().1 as int == end && j0 <= r.unwrap().1 <= lines@.len(),
            None => r is Err && r.unwrap_err() is DecodingError,
        },
{
    let ghost lv = lines_view(lines@);
    let ghost fseq = fields_view(fields@);
    let n = lines.len();
    let mut j = j0;
    let mut out: Vec<Value> = Vec::new();
    proof {
        assert(view_items(out@) =~= Seq::<SpecValue>::empty());
        assert(items_wf(Seq::<SpecValue>::empty()));
    }
    while j < n
        invariant
            j0 <= j <= n == lv.len(),
            items_wf(view_items(out@)),
            take_rows(lv, j0 as int, min_ind as int, fseq, d, strict) is Some <==> take_rows(
                lv,
                j as int,
                min_ind as int,
                fseq,
                d,
                strict,
            ) is Some,
            take_rows(lv, j0 as int, min_ind as int, fseq, d, strict) is Some
                ==> take_rows(lv, j0 as int, min_ind as int, fseq, d, strict).unwrap().0
                == view_items(out@) + take_rows(lv, j as int, min_ind as int, fseq, d, strict).unwrap().0
                && take_rows(lv, j0 as int, min_ind as int, fseq, d, strict).unwrap().1
                == take_rows(lv, j as int, min_ind as int, fseq, d, strict).unwrap().1,
        decreases n - j,
    {
        proof {
            assert(lv[j as int] == lines@[j as int]@);
        }
        let raw = strip_cr_exec(&lines[j]);
        let tr = trim_chars(&raw);
        let lead = lead_spaces_exec(&raw);
        if tr.len() == 0 || lead <= min_ind {
            proof {
                assert(view_items(out@) + Seq::<SpecValue>::empty() =~= view_items(out@));
            }
            return Ok((out, j));
        }
        let toks = split_top_exec(&tr, d);
        proof {
            assert(lines_view(toks@) =~= split_top(tr@, d));
        }
        if toks.len() != fields.len() {
            if strict {
                let mut msg = crate::chars::str_to_chars("row does not match header: ");
                let mut frag = trim_chars(&raw);
                msg.append(&mut frag);
                return Err(ToonError::DecodingError(crate::chars::chars_to_string(&msg)));
            }
            j = j + 1;
        } else {
            let row = row_obj_exec(fields, &toks, 0, Vec::new())?;
            proof {
                assert(view_entries(Seq::<(String, Value)>::empty()) =~= Seq::<
                    (Seq<char>, SpecValue),
                >::empty());
            }
            let ghost old_out = out@;
            let ghost rowv = view_entries(row@);
            out.push(Value::Obj(row));
            proof {
                assert(out@.drop_last() =~= old_out);
                assert(out@.last()@ == SpecValue::Obj(rowv));
                assert(view_items(out@) == view_items(old_out).push(SpecValue::Obj(rowv)));
                assert(view_items(out@).drop_last() =~= view_items(old_out));
                assert(spec_value_wf(SpecValue::Obj(rowv)));
                assert(items_wf(view_items(out@)));
                let full = take_rows(lv, j0 as int, min_ind as int, fseq, d, strict);
                let here = take_rows(lv, j as int, min_ind as int, fseq, d, strict);
                let there = take_rows(lv, j as int + 1, min_ind as int, fseq, d, strict);
                if there is Some {
                    assert(here.unwrap().0 =~= seq![SpecValue::Obj(rowv)] + there.unwrap().0);
                    assert(view_items(old_out) + here.unwrap().0 =~= view_items(out@)
                        + there.unwrap().0);
                }
            }
            j = j + 1;
        }
    }
    proof {
        assert(view_items(out@) + Seq::<SpecValue>::empty() =~= view_items(out@));
    }
    Ok((out, j))
}

/// Reads the array value a header line introduces.
#[verifier::loop_isolation(false)]
#[verifier::rlimit(100)]
#[verifier::spinoff_prover]
fn dec_header_value_exec(
    lines: &Vec<Vec<char>>,
    j: usize,
    lead: usize,
    kp: &Vec<char>,
    vp: &Vec<char>,
    strict: bool,
    d: char,
) -> (r: Result<(Value, usize), ToonError>)
    requires
        j < lines@.len(),
    ensures
        match dec_header_value(lines_view(lines@), j as int, lead as int, kp@, vp@, strict, d) {
            Some((v, next)) => r is Ok && r.unwrap().0@ == v && spec_value_wf(v)
                && r.unwrap().1 as int == next && r.unwrap().1 <= lines@.len(),
            None => r is Err && r.unwrap_err() is DecodingError,
        },
    decreases lines@.len() - j, 0int,
{
    let ghost lv = lines_view(lines@);
    let n = lines.len();
    let fb = find_unq_exec(kp, '{');
    let gb = find_unq_exec(kp, '}');
    match fb {
        Some(fbi) if vp.len() == 0 => {
            let gbi = match gb {
                Some(g) if g > fbi => g,
                _ => {
                    return Err(
                        ToonError::DecodingError(String::from_str("unterminated field list")),
                    );
                },
            };
            proof {
                assert(fbi < kp@.len() && gbi < kp@.len());
            }
            let body = subvec(kp, fbi + 1, gbi);
            let toks = split_top_exec(&body, d);
            proof {
                assert(lines_view(toks@) =~= split_top(body@, d));
            }
            let fields = parse_fields_exec(&toks, 0)?;
            proof {
                assert(fields_view(fields@) =~= parse_fields_from(split_top(
                    kp@.subrange(fbi + 1, gbi as int),
                    d,
                ), 0).unwrap());
            }
            let (rows, end) = take_rows_exec(lines, j + 1, lead, &fields, d, strict)?;
            let next = if end > j {
                end
            } else {
                j + 1
            };
            proof {
                assert(spec_value_wf(SpecValue::Arr(view_items(rows@))));
            }
            Ok((Value::Arr(rows), next))
        },
        Some(_) => {
            if strict {
                return Err(
                    ToonError::DecodingError(
                        String::from_str("header carries both a field list and inline values"),
                    ),
                );
            }
            let toks = split_top_exec(vp, d);
            proof {
                assert(lines_view(toks@) =~= split_top(vp@, d));
            }
            let vals = inline_values_exec(&toks, 0)?;
            proof {
                assert(spec_value_wf(SpecValue::Arr(view_items(vals@))));
            }
            Ok((Value::Arr(vals), j + 1))
        },
        None => {
            if vp.len() > 0 {
                let toks = split_top_exec(vp, d);
                proof {
                    assert(lines_view(toks@) =~= split_top(vp@, d));
                }
                let vals = inline_values_exec(&toks, 0)?;
                proof {
                    assert(spec_value_wf(SpecValue::Arr(view_items(vals@))));
                }
                Ok((Value::Arr(vals), j + 1))
            } else {
                let c0 = skip_blanks_exec(lines, j + 1);
                let c = if c0 < j + 1 {
                    j + 1
                } else {
                    c0
                };
                let mut deeper_dash = false;
                let mut clead: usize = 0;
                if c < n {
                    proof {
                        assert(lv[c as int] == lines@[c as int]@);
                    }
                    let craw = strip_cr_exec(&lines[c]);
                    clead = lead_spaces_exec(&craw);
                    if clead > lead && clead < craw.len() {
                        if craw[clead] == '-' {
                            deeper_dash = true;
                        }
                    }
                    proof {
                        assert(deeper_dash == (lead_spaces(strip_cr(lv[c as int])) > lead
                            && dash_line(strip_cr(lv[c as int]))));
                    }
                }
                if deeper_dash {
                    let (items, end) = dec_items_exec(lines, c, clead, Vec::new(), strict, d)?;
                    proof {
                        assert(view_items(Seq::<Value>::empty()) =~= Seq::<SpecValue>::empty());
                        assert(items_wf(Seq::<SpecValue>::empty()));
                        assert(spec_value_wf(SpecValue::Arr(view_items(items@))));
                    }
                    let next = if end > j {
                        end
                    } else {
                        j + 1
                    };
                    Ok((Value::Arr(items), next))
                } else {
                    let empty: Vec<Value> = Vec::new();
                    proof {
                        assert(view_items(empty@) =~= Seq::<SpecValue>::empty());
                        assert(items_wf(Seq::<SpecValue>::empty()));
                        assert(spec_value_wf(SpecValue::Arr(view_items(empty@))));
                    }
                    Ok((Value::Arr(empty), j + 1))
                }
            }
        },
    }
}

/// Decodes the dash items of an expanded array.
#[verifier::loop_isolation(false)]
#[verifier::rlimit(100)]
#[verifier::spinoff_prover]
fn dec_items_exec(
    lines: &Vec<Vec<char>>,
    i0: usize,
    ind: usize,
    acc0: Vec<Value>,
    strict: bool,
    d: char,
) -> (r: Result<(Vec<Value>, usize), ToonError>)
    requires
        i0 <= lines@.len(),
        items_wf(view_items(acc0@)),
    ensures
        match dec_items(lines_view(lines@), i0 as int, ind as int, view_items(acc0@), strict, d) {
            Some((items, next)) => r is Ok && view_items(r.unwrap().0@) == items && items_wf(items)
                && r.unwrap().1 as int == next && r.unwrap().1 <= lines@.len(),
            None => r is Err && r.unwrap_err() is DecodingError,
        },
    decreases lines@.len() - i0, 1int,
{
    let ghost lv = lines_view(lines@);
    let ghost acc0v = view_items(acc0@);
    let n = lines.len();
    let mut i = i0;
    let mut acc = acc0;
    while i < n
        invariant
            i0 <= i <= n == lv.len(),
            items_wf(view_items(acc@)),
            dec_items(lv, i0 as int, ind as int, acc0v, strict, d) == dec_items(
                lv,
                i as int,
                ind as int,
                view_items(acc@),
                strict,
                d,
            ),
        decreases n - i,
    {
        proof {
            assert(lv[i as int] == lines@[i as int]@);
        }
        let raw = strip_cr_exec(&lines[i]);
        let tr = trim_chars(&raw);
        if tr.len() == 0 {
            i = i + 1;
        } else {
            let lead = lead_spaces_exec(&raw);
            proof {
                lemma_nonblank_lead(raw@);
            }
            if lead < ind {
                return Ok((acc, i));
            } else if lead > ind || raw[ind] != '-' {
                if strict {
                    let mut msg = crate::chars::str_to_chars("expected a dash item: ");
                    let mut frag = trim_chars(&raw);
                    msg.append(&mut frag);
                    return Err(ToonError::DecodingError(crate::chars::chars_to_string(&msg)));
                }
                i = i + 1;
            } else {
                let rn = raw.len();
                let b0 = subvec(&raw, ind + 1, rn);
                let body = if b0.len() > 0 && b0[0] == ' ' {
                    subvec(&b0, 1, b0.len())
                } else {
                    b0
                };
                match find_unq_exec(&body, ':') {
                    None => {
                        let v = parse_scalar(&body)?;
                        let ghost old_acc = acc@;
                        acc.push(v);
                        proof {
                            assert(acc@.drop_last() =~= old_acc);
                            assert(view_items(acc@) == view_items(old_acc).push(acc@.last()@));
                            assert(view_items(acc@).drop_last() =~= view_items(old_acc));
                            assert(items_wf(view_items(acc@)));
                        }
                        i = i + 1;
                    },
                    Some(sep) => {
                        let bn = body.len();
                        let kp = trim_chars(&subvec(&body, 0, sep));
                        let vp = trim_chars(&subvec(&body, sep + 1, bn));
                        match find_unq_exec(&kp, '[') {
                            Some(b) => {
                                let name0 = trim_chars(&subvec(&kp, 0, b));
                                let nm = parse_key_exec(&name0)?;
                                if nm.as_str().is_empty() {
                                    let (av, next) = dec_header_value_exec(
                                        lines,
                                        i,
                                        ind,
                                        &kp,
                                        &vp,
                                        strict,
                                        d,
                                    )?;
                                    let ghost old_acc = acc@;
                                    acc.push(av);
                                    proof {
                                        assert(acc@.drop_last() =~= old_acc);
                                        assert(view_items(acc@) == view_items(old_acc).push(
                                            acc@.last()@,
                                        ));
                                        assert(view_items(acc@).drop_last() =~= view_items(
                                            old_acc,
                                        ));
                                        assert(items_wf(view_items(acc@)));
                                    }
                                    i = if i < next && next <= n {
                                        next
                                    } else {
                                        i + 1
                                    };
                                } else if strict {
                                    let mut msg = crate::chars::str_to_chars(
                                        "unsupported dash item: ",
                                    );
                                    let mut frag = trim_chars(&raw);
                                    msg.append(&mut frag);
                                    return Err(
                                        ToonError::DecodingError(
                                            crate::chars::chars_to_string(&msg),
                                        ),
                                    );
                                } else {
                                    i = i + 1;
                                }
                            },
                            None => {
                                let k = parse_key_exec(&kp)?;
                                let mut first: Vec<(String, Value)> = Vec::new();
                                let from: usize;
                                if vp.len() > 0 {
                                    let v = parse_scalar(&vp)?;
                                    first.push((k, v));
                                    from = i + 1;
                                } else {
                                    let c0 = skip_blanks_exec(lines, i + 1);
                                    let c = if c0 < i + 1 {
                                        i + 1
                                    } else {
                                        c0
                                    };
                                    let mut deeper = false;
                                    if c < n {
                                        proof {
                                            assert(lv[c as int] == lines@[c as int]@);
                                        }
                                        let craw = strip_cr_exec(&lines[c]);
                                        if lead_spaces_exec(&craw) > ind {
                                            deeper = true;
                                        }
                                    }
                                    if deeper {
                                        let (v, nxt) = dec_child_value_exec(lines, c, strict, d)?;
                                        first.push((k, v));
                                        from = if i < nxt && nxt <= n {
                                            nxt
                                        } else {
                                            i + 1
                                        };
                                    } else {
                                        let empty_obj: Vec<(String, Value)> = Vec::new();
                                        proof {
                                            assert(view_entries(empty_obj@) =~= Seq::<
                                                (Seq<char>, SpecValue),
                                            >::empty());
                                            assert(entries_wf(view_entries(empty_obj@)));
                                            assert(keys_distinct(view_entries(empty_obj@)));
                                            assert(spec_value_wf(
                                                SpecValue::Obj(view_entries(empty_obj@)),
                                            ));
                                        }
                                        first.push((k, Value::Obj(empty_obj)));
                                        from = i + 1;
                                    }
                                }
                                proof {
                                    assert(first@.drop_last() =~= Seq::<(String, Value)>::empty());
                                    assert(view_entries(Seq::<(String, Value)>::empty()) =~= Seq::<
                                        (Seq<char>, SpecValue),
                                    >::empty());
                                    assert(view_entries(first@) =~= seq![
                                        (first@[0].0@, first@[0].1@),
                                    ]);
                                    assert(view_entries(first@).drop_last() =~= Seq::<
                                        (Seq<char>, SpecValue),
                                    >::empty());
                                    assert(entries_wf(Seq::<(Seq<char>, SpecValue)>::empty()));
                                    assert(view_entries(first@).last() == (
                                        first@[0].0@,
                                        first@[0].1@,
                                    ));
                                    assert(keys_distinct(view_entries(first@)));
                                    assert(entries_wf(view_entries(first@)));
                                }
                                proof {
                                    assert(dec_items(
                                        lv,
                                        i as int,
                                        ind as int,
                                        view_items(acc@),
                                        strict,
                                        d,
                                    ) == dec_item_entries(
                                        lv,
                                        i as int,
                                        ind as int,
                                        view_items(acc@),
                                        view_entries(first@),
                                        from as int,
                                        strict,
                                        d,
                                    ));
                                }
                                // The rest of the object item sits on the deeper lines.
                                let c20 = skip_blanks_exec(lines, from);
                                let c2 = if c20 < from {
                                    from
                                } else {
                                    c20
                                };
                                let mut deeper2 = false;
                                if c2 < n {
                                    proof {
                                        assert(lv[c2 as int] == lines@[c2 as int]@);
                                    }
                                    let craw2 = strip_cr_exec(&lines[c2]);
                                    if lead_spaces_exec(&craw2) > ind {
                                        deeper2 = true;
                                    }
                                }
                                if deeper2 {
                                    let craw3 = strip_cr_exec(&lines[c2]);
                                    let clead = lead_spaces_exec(&craw3);
                                    let (es, next) = dec_entries_exec(
                                        lines,
                                        c2,
                                        clead,
                                        first,
                                        strict,
                                        d,
                                    )?;
                                    let ghost old_acc = acc@;
                                    let ghost esv = view_entries(es@);
                                    acc.push(Value::Obj(es));
                                    proof {
                                        assert(acc@.drop_last() =~= old_acc);
                                        assert(acc@.last()@ == SpecValue::Obj(esv));
                                        assert(spec_value_wf(SpecValue::Obj(esv)));
                                        assert(view_items(acc@) == view_items(old_acc).push(
                                            acc@.last()@,
                                        ));
                                        assert(view_items(acc@).drop_last() =~= view_items(
                                            old_acc,
                                        ));
                                        assert(items_wf(view_items(acc@)));
                                    }
                                    i = if i < next && next <= n {
                                        next
                                    } else {
                                        i + 1
                                    };
                                } else {
                                    let ghost old_acc = acc@;
                                    let ghost fv = view_entries(first@);
                                    proof {
                                        lemma_entries_wf_elem(fv);
                                        assert(spec_value_wf(SpecValue::Obj(fv)));
                                    }
                                    acc.push(Value::Obj(first));
                                    proof {
                                        assert(acc@.drop_last() =~= old_acc);
                                        assert(acc@.last()@ == SpecValue::Obj(fv));
                                        assert(view_items(acc@) == view_items(old_acc).push(
                                            acc@.last()@,
                                        ));
                                        assert(view_items(acc@).drop_last() =~= view_items(
                                            old_acc,
                                        ));
                                        assert(items_wf(view_items(acc@)));
                                    }
                                    i = from;
                                }
                            },
                        }
                    },
                }
            }
        }
    }
    Ok((acc, i))
}

/// Decodes the value bound to a pending key.
#[verifier::loop_isolation(false)]
#[verifier::rlimit(100)]
#[verifier::spinoff_prover]
fn dec_child_value_exec(
    lines: &Vec<Vec<char>>,
    c: usize,
    strict: bool,
    d: char,
) -> (r: Result<(Value, usize), ToonError>)
    requires
        c < lines@.len(),
    ensures
        match dec_child_value(lines_view(lines@), c as int, strict, d) {
            Some((v, next)) => r is Ok && r.unwrap().0@ == v && spec_value_wf(v)
                && r.unwrap().1 as int == next && r.unwrap().1 <= lines@.len(),
            None => r is Err && r.unwrap_err() is DecodingError,
        },
    decreases lines@.len() - c, 4int,
{
    let ghost lv = lines_view(lines@);
    proof {
        assert(lv[c as int] == lines@[c as int]@);
    }
    let raw = strip_cr_exec(&lines[c]);
    let lead = lead_spaces_exec(&raw);
    let is_dash = lead < raw.len() && raw[lead] == '-';
    if is_dash {
        let (items, next) = dec_items_exec(lines, c, lead, Vec::new(), strict, d)?;
        proof {
            assert(view_items(Seq::<Value>::empty()) =~= Seq::<SpecValue>::empty());
            assert(items_wf(Seq::<SpecValue>::empty()));
            assert(spec_value_wf(SpecValue::Arr(view_items(items@))));
        }
        return Ok((Value::Arr(items), next));
    }
    let sep = match find_unq_exec(&raw, ':') {
        None => {
            if strict {
                let mut msg = crate::chars::str_to_chars("line without a colon: ");
                let mut frag = trim_chars(&raw);
                msg.append(&mut frag);
                return Err(ToonError::DecodingError(crate::chars::chars_to_string(&msg)));
            }
            let empty: Vec<(String, Value)> = Vec::new();
            proof {
                assert(view_entries(empty@) =~= Seq::<(Seq<char>, SpecValue)>::empty());
                assert(keys_distinct(view_entries(empty@)) && entries_wf(view_entries(empty@)));
                assert(spec_value_wf(SpecValue::Obj(view_entries(empty@))));
            }
            return Ok((Value::Obj(empty), c));
        },
        Some(s) => s,
    };
    let rn = raw.len();
    let kp = trim_chars(&subvec(&raw, 0, sep));
    let vp = trim_chars(&subvec(&raw, sep + 1, rn));
    let mut anon = false;
    let mut bpos: usize = 0;
    match find_unq_exec(&kp, '[') {
        Some(b) => {
            let name0 = trim_chars(&subvec(&kp, 0, b));
            if name0.len() == 0 {
                anon = true;
                bpos = b;
            }
        },
        None => {},
    }
    if anon {
        let (v, next) = dec_header_value_exec(lines, c, lead, &kp, &vp, strict, d)?;
        Ok((v, next))
    } else {
        let empty: Vec<(String, Value)> = Vec::new();
        proof {
            assert(view_entries(empty@) =~= Seq::<(Seq<char>, SpecValue)>::empty());
            assert(keys_distinct(view_entries(empty@)) && entries_wf(view_entries(empty@)));
        }
        let (es, next) = dec_entries_exec(lines, c, lead, empty, strict, d)?;
        proof {
            assert(spec_value_wf(SpecValue::Obj(view_entries(es@))));
        }
        Ok((Value::Obj(es), next))
    }
}

/// Decodes the entries of an object block.
#[verifier::loop_isolation(false)]
#[verifier::rlimit(100)]
#[verifier::spinoff_prover]
fn dec_entries_exec(
    lines: &Vec<Vec<char>>,
    i0: usize,
    ind: usize,
    acc0: Vec<(String, Value)>,
    strict: bool,
    d: char,
) -> (r: Result<(Vec<(String, Value)>, usize), ToonError>)
    requires
        i0 <= lines@.len(),
        keys_distinct(view_entries(acc0@)),
        entries_wf(view_entries(acc0@)),
    ensures
        match dec_entries(lines_view(lines@), i0 as int, ind as int, view_entries(acc0@), strict, d) {
            Some((es, next)) => r is Ok && view_entries(r.unwrap().0@) == es && keys_distinct(es)
                && entries_wf(es) && r.unwrap().1 as int == next && r.unwrap().1 <= lines@.len(),
            None => r is Err && r.unwrap_err() is DecodingError,
        },
    decreases lines@.len() - i0, 3int,
{
    let ghost lv = lines_view(lines@);
    let ghost acc0v = view_entries(acc0@);
    let n = lines.len();
    let mut i = i0;
    let mut acc = acc0;
    while i < n
        invariant
            i0 <= i <= n == lv.len(),
            keys_distinct(view_entries(acc@)),
            entries_wf(view_entries(acc@)),
            dec_entries(lv, i0 as int, ind as int, acc0v, strict, d) == dec_entries(
                lv,
                i as int,
                ind as int,
                view_entries(acc@),
                strict,
                d,
            ),
        decreases n - i,
    {
        proof {
            assert(lv[i as int] == lines@[i as int]@);
        }
        let raw = strip_cr_exec(&lines[i]);
        let tr = trim_chars(&raw);
        if tr.len() == 0 {
            i = i + 1;
        } else {
            let lead = lead_spaces_exec(&raw);
            if lead < ind {
                return Ok((acc, i));
            } else if lead > ind {
                if strict {
                    let mut msg = crate::chars::str_to_chars("misindented line: ");
                    let mut frag = trim_chars(&raw);
                    msg.append(&mut frag);
                    return Err(ToonError::DecodingError(crate::chars::chars_to_string(&msg)));
                }
                i = i + 1;
            } else {
                let sep = match find_unq_exec(&raw, ':') {
                    None => {
                        if strict {
                            let mut msg = crate::chars::str_to_chars("line without a colon: ");
                            let mut frag = trim_chars(&raw);
                            msg.append(&mut frag);
                            return Err(
                                ToonError::DecodingError(crate::chars::chars_to_string(&msg)),
                            );
                        }
                        i = i + 1;
                        continue ;
                    },
                    Some(s) => s,
                };
                let rn = raw.len();
                let kp = trim_chars(&subvec(&raw, 0, sep));
                let vp = trim_chars(&subvec(&raw, sep + 1, rn));
                match find_unq_exec(&kp, '[') {
                    Some(b) => {
                        let name0 = trim_chars(&subvec(&kp, 0, b));
                        let nm = parse_key_exec(&name0)?;
                        if nm.as_str().is_empty() {
                            if strict {
                                let mut msg = crate::chars::str_to_chars(
                                    "array header without a key: ",
                                );
                                let mut frag = trim_chars(&raw);
                                msg.append(&mut frag);
                                return Err(
                                    ToonError::DecodingError(
                                        crate::chars::chars_to_string(&msg),
                                    ),
                                );
                            }
                            i = i + 1;
                        } else {
                            let (av, next) = dec_header_value_exec(
                                lines,
                                i,
                                lead,
                                &kp,
                                &vp,
                                strict,
                                d,
                            )?;
                            proof {
                                lemma_insert_entry_wf(view_entries(acc@), nm@, av@);
                            }
                            insert_exec(&mut acc, nm, av);
                            i = if i < next && next <= n {
                                next
                            } else {
                                i + 1
                            };
                        }
                    },
                    None => {
                        let k = parse_key_exec(&kp)?;
                        if vp.len() > 0 {
                            let v = parse_scalar(&vp)?;
                            proof {
                                lemma_insert_entry_wf(view_entries(acc@), k@, v@);
                            }
                            insert_exec(&mut acc, k, v);
                            i = i + 1;
                        } else {
                            let c0 = skip_blanks_exec(lines, i + 1);
                            let c = if c0 < i + 1 {
                                i + 1
                            } else {
                                c0
                            };
                            let mut deeper = false;
                            if c < n {
                                proof {
                                    assert(lv[c as int] == lines@[c as int]@);
                                }
                                let craw = strip_cr_exec(&lines[c]);
                                if lead_spaces_exec(&craw) > lead {
                                    deeper = true;
                                }
                            }
                            if deeper {
                                let (v, next) = dec_child_value_exec(lines, c, strict, d)?;
                                proof {
                                    lemma_insert_entry_wf(view_entries(acc@), k@, v@);
                                }
                                insert_exec(&mut acc, k, v);
                                i = if i < next && next <= n {
                                    next
                                } else {
                                    i + 1
                                };
                            } else {
                                let empty: Vec<(String, Value)> = Vec::new();
                                proof {
                                    assert(view_entries(empty@) =~= Seq::<
                                        (Seq<char>, SpecValue),
                                    >::empty());
                                    assert(entries_wf(view_entries(empty@)));
                                    assert(keys_distinct(view_entries(empty@)));
                                    assert(spec_value_wf(SpecValue::Obj(view_entries(empty@))));
                                    lemma_insert_entry_wf(
                                        view_entries(acc@),
                                        k@,
                                        SpecValue::Obj(Seq::empty()),
                                    );
                                }
                                insert_exec(&mut acc, k, Value::Obj(empty));
                                i = i + 1;
                            }
                        }
                    },
                }
            }
        }
    }
    Ok((acc, i))
}

/// Decodes a whole text against the given options.
pub fn decode_chars(text: &Vec<char>, strict: bool, d: char) -> (r: Result<Value, ToonError>)
    ensures
        match decode_spec(text@, strict, d) {
            Some(v) => r is Ok && r.unwrap()@ == v && spec_value_wf(v) && v is Obj,
            None => r is Err && r.unwrap_err() is DecodingError,
        },
{
    let lines = split_lines_exec(text);
    proof {
        assert(lines_view(lines@) =~= split_lines(text@));
        assert(view_entries(Seq::<(String, Value)>::empty()) =~= Seq::<
            (Seq<char>, SpecValue),
        >::empty());
        assert(entries_wf(Seq::<(Seq<char>, SpecValue)>::empty()));
    }
    let (es, _next) = dec_entries_exec(&lines, 0, 0, Vec::new(), strict, d)?;
    proof {
        assert(spec_value_wf(SpecValue::Obj(view_entries(es@))));
    }
    Ok(Value::Obj(es))
}

} // verus!

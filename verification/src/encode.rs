//! The encoder: a recursive rendering of a value into the notation, choosing
//! tabular form for uniform record arrays, inline form for scalar arrays,
//! and an expanded dash-item form for everything else.

use vstd::prelude::*;
use crate::chars::str_to_chars;
use crate::lexical::{
    enc_key, enc_key_spec, false_chars, is_blank, is_valid_identifier, is_valid_identifier_spec,
    lemma_quoted_roundtrip, null_chars, parse_scalar_spec, quote_if_needed, quote_spec,
    trim_spec, true_chars,
};
use crate::number::{
    dec_digits, fmt_decimal, fmt_i64, fmt_u64, frac_chars, int_digits, is_digit,
    lemma_dec_roundtrip, lemma_int_roundtrip, lemma_nat_digits, nat_digits,
};
use crate::value::{
    SpecValue, Value, entries_wf, lemma_view_entries, lemma_view_items, lemma_wf_arr,
    lemma_wf_obj, spec_is_scalar, spec_value_wf, view_entries, view_items,
};

verus! {

broadcast use
    vstd::std_specs::vec::axiom_vec_decreases_to_view,
    vstd::seq::axiom_seq_index_decreases;

/// A run of spaces.
pub open spec fn spaces(n: nat) -> Seq<char>
    decreases n,
{
    if n == 0 {
        Seq::empty()
    } else {
        spaces((n - 1) as nat).push(' ')
    }
}

/// The indentation of one nesting level: `level * width` spaces.
pub open spec fn ind(level: nat, w: nat) -> Seq<char> {
    spaces(level * w)
}

/// The token of one scalar value.
pub open spec fn enc_scalar(v: SpecValue, d: char) -> Seq<char> {
    match v {
        SpecValue::Null => null_chars(),
        SpecValue::Bool(b) => if b {
            true_chars()
        } else {
            false_chars()
        },
        SpecValue::Int(n) => int_digits(n),
        SpecValue::Dec { neg, whole, frac } => dec_digits(neg, whole as int, frac),
        SpecValue::Str(s) => quote_spec(s, d),
        SpecValue::Arr(_) => Seq::empty(),
        SpecValue::Obj(_) => Seq::empty(),
    }
}

/// The entries of an object model; empty for every other value.
pub open spec fn obj_entries(v: SpecValue) -> Seq<(Seq<char>, SpecValue)> {
    match v {
        SpecValue::Obj(es) => es,
        _ => Seq::empty(),
    }
}

/// Whether an object has an entry under a key.
pub open spec fn has_key(es: Seq<(Seq<char>, SpecValue)>, k: Seq<char>) -> bool {
    exists|i: int| 0 <= i < es.len() && es[i].0 == k
}

/// The value under a key: the first entry wins.
pub open spec fn lookup(es: Seq<(Seq<char>, SpecValue)>, k: Seq<char>) -> SpecValue
    decreases es,
{
    if es.len() == 0 {
        SpecValue::Null
    } else if es[0].0 == k {
        es[0].1
    } else {
        lookup(es.skip(1), k)
    }
}

/// Every element is a scalar.
pub open spec fn all_scalars(items: Seq<SpecValue>) -> bool {
    forall|i: int| 0 <= i < items.len() ==> spec_is_scalar(#[trigger] items[i])
}

/// The column keys of a uniform record array: the first record's keys in
/// order.
pub open spec fn uniform_keys(items: Seq<SpecValue>) -> Seq<Seq<char>> {
    obj_entries(items[0]).map_values(|e: (Seq<char>, SpecValue)| e.0)
}

/// A uniform record array: non-empty, every element an object, every object
/// carrying exactly the first element's key set, and every field value a
/// scalar.
pub open spec fn is_uniform(items: Seq<SpecValue>) -> bool {
    &&& items.len() > 0
    &&& (forall|i: int| 0 <= i < items.len() ==> (#[trigger] items[i]) is Obj)
    &&& (forall|j: int|
        0 <= j < obj_entries(items[0]).len() ==> spec_is_scalar(
            (#[trigger] obj_entries(items[0])[j]).1,
        ))
    &&& (forall|i: int|
        1 <= i < items.len() ==> obj_entries(#[trigger] items[i]).len() == uniform_keys(
            items,
        ).len())
    &&& (forall|i: int, j: int|
        1 <= i < items.len() && 0 <= j < uniform_keys(items).len() ==> has_key(
            obj_entries(#[trigger] items[i]),
            #[trigger] uniform_keys(items)[j],
        ) && spec_is_scalar(lookup(obj_entries(items[i]), uniform_keys(items)[j])))
}

/// The length-marker header of an array: `[N<delimiter>]`, or `[]` when
/// length markers are off.
pub open spec fn header(n: nat, d: char, m: bool) -> Seq<char> {
    if m {
        seq!['['] + nat_digits(n as int) + seq![d, ']']
    } else {
        seq!['[', ']']
    }
}

/// The delimiter-joined field list of a tabular header.
pub open spec fn enc_keys(keys: Seq<Seq<char>>, d: char) -> Seq<char>
    decreases keys,
{
    if keys.len() == 0 {
        Seq::empty()
    } else if keys.len() == 1 {
        enc_key_spec(keys[0], d)
    } else {
        enc_key_spec(keys[0], d) + seq![d] + enc_keys(keys.skip(1), d)
    }
}

/// A delimiter-joined row of scalar tokens.
pub open spec fn enc_scalar_row(items: Seq<SpecValue>, d: char) -> Seq<char>
    decreases items,
{
    if items.len() == 0 {
        Seq::empty()
    } else if items.len() == 1 {
        enc_scalar(items[0], d)
    } else {
        enc_scalar(items[0], d) + seq![d] + enc_scalar_row(items.skip(1), d)
    }
}

/// The field values of one record in column order.
pub open spec fn row_values(es: Seq<(Seq<char>, SpecValue)>, keys: Seq<Seq<char>>) -> Seq<
    SpecValue,
> {
    keys.map_values(|k: Seq<char>| lookup(es, k))
}

/// The data rows of a tabular array, one line per record.
pub open spec fn enc_rows(
    items: Seq<SpecValue>,
    keys: Seq<Seq<char>>,
    level: nat,
    d: char,
    w: nat,
) -> Seq<char>
    decreases items,
{
    if items.len() == 0 {
        Seq::empty()
    } else {
        seq!['\n'] + ind(level, w) + enc_scalar_row(row_values(obj_entries(items[0]), keys), d)
            + enc_rows(items.skip(1), keys, level, d, w)
    }
}

/// The body of a container value: the lines of an object or array, each
/// carrying its own indentation, with no trailing line break. With
/// `bare_first` the first line omits its indentation (it continues a dash
/// item).
pub open spec fn enc_container(
    v: SpecValue,
    level: nat,
    bare_first: bool,
    d: char,
    w: nat,
    m: bool,
) -> Seq<char>
    decreases v, 1int,
{
    match v {
        SpecValue::Obj(es) => enc_object(es, level, bare_first, d, w, m),
        SpecValue::Arr(items) => enc_array(items, level, bare_first, d, w, m),
        _ => Seq::empty(),
    }
}

/// One `key: value` entry; a container value opens a re-indented block on
/// the following lines.
pub open spec fn enc_entry(e: (Seq<char>, SpecValue), level: nat, d: char, w: nat, m: bool) -> Seq<
    char,
>
    decreases e, 2int,
{
    let kk = enc_key_spec(e.0, d);
    if spec_is_scalar(e.1) {
        kk + seq![':', ' '] + enc_scalar(e.1, d)
    } else {
        let sub = enc_container(e.1, (level + 1) as nat, false, d, w, m);
        if sub.len() == 0 {
            kk + seq![':']
        } else {
            kk + seq![':', '\n'] + sub
        }
    }
}

/// The lines of an object: one entry per line in insertion order.
pub open spec fn enc_object(
    es: Seq<(Seq<char>, SpecValue)>,
    level: nat,
    bare_first: bool,
    d: char,
    w: nat,
    m: bool,
) -> Seq<char>
    decreases es, 3int,
{
    if es.len() == 0 {
        Seq::empty()
    } else {
        let line0 = (if bare_first {
            Seq::<char>::empty()
        } else {
            ind(level, w)
        }) + enc_entry(es[0], level, d, w, m);
        if es.len() == 1 {
            line0
        } else {
            line0 + seq!['\n'] + enc_object(es.skip(1), level, false, d, w, m)
        }
    }
}

/// The dash items of a mixed array, one block per element.
pub open spec fn enc_mixed(items: Seq<SpecValue>, level: nat, d: char, w: nat, m: bool) -> Seq<
    char,
>
    decreases items, 3int,
{
    if items.len() == 0 {
        Seq::empty()
    } else {
        let body = if spec_is_scalar(items[0]) {
            enc_scalar(items[0], d)
        } else {
            enc_container(items[0], (level + 1) as nat, true, d, w, m)
        };
        seq!['\n'] + ind(level, w) + seq!['-', ' '] + body + enc_mixed(
            items.skip(1),
            level,
            d,
            w,
            m,
        )
    }
}

/// The lines of an array: a header line, then tabular rows, inline values,
/// or dash items as the array's shape demands.
pub open spec fn enc_array(
    items: Seq<SpecValue>,
    level: nat,
    bare_first: bool,
    d: char,
    w: nat,
    m: bool,
) -> Seq<char>
    decreases items, 4int,
{
    let h = if bare_first {
        Seq::<char>::empty()
    } else {
        ind(level, w)
    };
    if items.len() == 0 {
        h + header(0, d, m) + seq![':']
    } else if is_uniform(items) {
        h + header(items.len(), d, m) + seq!['{'] + enc_keys(uniform_keys(items), d) + seq![
            '}',
            ':',
        ] + enc_rows(items, uniform_keys(items), (level + 1) as nat, d, w)
    } else if all_scalars(items) {
        h + header(items.len(), d, m) + seq![':', ' '] + enc_scalar_row(items, d)
    } else {
        h + header(items.len(), d, m) + seq![':'] + enc_mixed(items, (level + 1) as nat, d, w, m)
    }
}

/// The full rendering of a value: a scalar is its token, a container is its
/// block at the outermost level.
pub open spec fn enc_doc(v: SpecValue, d: char, w: nat, m: bool) -> Seq<char> {
    if spec_is_scalar(v) {
        enc_scalar(v, d)
    } else {
        enc_container(v, 0, false, d, w, m)
    }
}

/// Runs of spaces concatenate.
pub proof fn lemma_spaces_add(a: nat, b: nat)
    ensures
        spaces(a + b) == spaces(a) + spaces(b),
    decreases b,
{
    if b == 0 {
        assert(spaces(a + 0) =~= spaces(a) + spaces(0));
    } else {
        lemma_spaces_add(a, (b - 1) as nat);
        assert(spaces(a + b) =~= spaces(a) + spaces(b)) by {
            assert(spaces((a + b - 1) as nat).push(' ') =~= spaces(a) + spaces(
                (b - 1) as nat,
            ).push(' '));
        }
    }
}

/// The value under a present key is the value of one of the entries.
pub proof fn lemma_lookup_is_entry(es: Seq<(Seq<char>, SpecValue)>, k: Seq<char>)
    requires
        has_key(es, k),
    ensures
        exists|i: int|
            0 <= i < es.len() && (#[trigger] es[i]).0 == k && lookup(es, k) == es[i].1,
    decreases es,
{
    if es.len() > 0 && es[0].0 != k {
        assert(has_key(es.skip(1), k)) by {
            let i = choose|i: int| 0 <= i < es.len() && (#[trigger] es[i]).0 == k;
            assert(es.skip(1)[i - 1].0 == k);
        }
        lemma_lookup_is_entry(es.skip(1), k);
        let j = choose|j: int|
            0 <= j < es.skip(1).len() && (#[trigger] es.skip(1)[j]).0 == k && lookup(
                es.skip(1),
                k,
            ) == es.skip(1)[j].1;
        assert(es[j + 1].0 == k && lookup(es, k) == es[j + 1].1);
    }
}

/// A copy of a character vector.
pub fn copy_chars(s: &Vec<char>) -> (r: Vec<char>)
    ensures
        r@ == s@,
{
    let mut r: Vec<char> = Vec::new();
    let n = s.len();
    let mut i: usize = 0;
    while i < n
        invariant
            i <= n <= s@.len(),
            r@ =~= s@.take(i as int),
        decreases n - i,
    {
        r.push(s[i]);
        proof {
            assert(r@ =~= s@.take(i as int + 1));
        }
        i = i + 1;
    }
    proof {
        assert(r@ =~= s@);
    }
    r
}

/// One indentation step deeper: the given indent followed by `w` spaces.
pub fn deeper_indent(indent: &Vec<char>, w: usize, Ghost(level): Ghost<nat>) -> (r: Vec<char>)
    requires
        indent@ == ind(level, w as nat),
    ensures
        r@ == ind(level + 1, w as nat),
{
    let mut r = copy_chars(indent);
    let mut j: usize = 0;
    while j < w
        invariant
            j <= w,
            indent@ == ind(level, w as nat),
            r@ == indent@ + spaces(j as nat),
        decreases w - j,
    {
        r.push(' ');
        proof {
            assert(r@ =~= indent@ + spaces(j as nat + 1));
        }
        j = j + 1;
    }
    proof {
        assert((level + 1) * (w as nat) == level * (w as nat) + w as nat) by (nonlinear_arith);
        lemma_spaces_add(level * (w as nat), w as nat);
    }
    r
}

/// Renders one scalar token.
pub fn enc_scalar_exec(v: &Value, d: char) -> (r: Vec<char>)
    requires
        spec_is_scalar(v@),
        spec_value_wf(v@),
    ensures
        r@ == enc_scalar(v@, d),
{
    match v {
        Value::Null => {
            let mut r: Vec<char> = Vec::new();
            r.push('n');
            r.push('u');
            r.push('l');
            r.push('l');
            proof {
                assert(r@ =~= null_chars());
            }
            r
        },
        Value::Bool(b) => {
            let mut r: Vec<char> = Vec::new();
            if *b {
                r.push('t');
                r.push('r');
                r.push('u');
                r.push('e');
                proof {
                    assert(r@ =~= true_chars());
                }
            } else {
                r.push('f');
                r.push('a');
                r.push('l');
                r.push('s');
                r.push('e');
                proof {
                    assert(r@ =~= false_chars());
                }
            }
            r
        },
        Value::Int(n) => fmt_i64(*n),
        Value::Dec(dec) => fmt_decimal(dec),
        Value::Str(s) => {
            let cs = str_to_chars(s.as_str());
            quote_if_needed(&cs, d)
        },
        Value::Arr(_) => Vec::new(),
        Value::Obj(_) => Vec::new(),
    }
}

/// Looks a key up in an object's entries: the first entry under that key.
#[verifier::loop_isolation(false)]
pub fn lookup_value<'a>(es: &'a Vec<(String, Value)>, k: &String) -> (r: Option<&'a Value>)
    ensures
        r is Some <==> has_key(view_entries(es@), k@),
        r is Some ==> r.unwrap()@ == lookup(view_entries(es@), k@),
{
    let ghost ves = view_entries(es@);
    proof {
        lemma_view_entries(es@);
        assert(ves.skip(0) =~= ves);
    }
    let n = es.len();
    let mut i: usize = 0;
    while i < n
        invariant
            i <= n,
            forall|j: int| 0 <= j < i ==> (#[trigger] ves[j]).0 != k@,
            lookup(ves, k@) == lookup(ves.skip(i as int), k@),
        decreases n - i,
    {
        proof {
            assert(ves.skip(i as int)[0] == ves[i as int]);
            assert(ves.skip(i as int).skip(1) =~= ves.skip(i as int + 1));
        }
        if es[i].0.eq(k) {
            proof {
                assert(has_key(ves, k@)) by {
                    assert(ves[i as int].0 == k@);
                }
            }
            return Some(&es[i].1);
        }
        i = i + 1;
    }
    proof {
        if has_key(ves, k@) {
            let j = choose|j: int| 0 <= j < ves.len() && (#[trigger] ves[j]).0 == k@;
            assert(false);
        }
    }
    None
}

/// The shape of an array, deciding its encoding.
pub enum ArrayShape {
    /// No elements: a bare header.
    Empty,
    /// A uniform record array: tabular, with these column keys.
    Table(Vec<String>),
    /// All scalars: one inline line.
    Inline,
    /// Anything else: one dash item per element.
    Expanded,
}

/// Whether a record object offers a scalar value under every given key.
#[verifier::loop_isolation(false)]
fn check_record(es: &Vec<(String, Value)>, keys: &Vec<String>) -> (r: bool)
    ensures
        r == (forall|u: int|
            0 <= u < keys@.len() ==> has_key(view_entries(es@), (#[trigger] keys@[u])@)
                && spec_is_scalar(lookup(view_entries(es@), keys@[u]@))),
{
    let ghost ves = view_entries(es@);
    let kn = keys.len();
    let mut u: usize = 0;
    while u < kn
        invariant
            u <= kn == keys@.len(),
            forall|t: int|
                0 <= t < u ==> has_key(ves, (#[trigger] keys@[t])@) && spec_is_scalar(
                    lookup(ves, keys@[t]@),
                ),
        decreases kn - u,
    {
        match lookup_value(es, &keys[u]) {
            Some(fv) => {
                if !fv.is_scalar() {
                    return false;
                }
            },
            None => {
                return false;
            },
        }
        u = u + 1;
    }
    true
}

/// Classifies an array: empty, tabular, inline or expanded.
#[verifier::loop_isolation(false)]
pub fn classify_array(items: &Vec<Value>) -> (r: ArrayShape)
    ensures
        match r {
            ArrayShape::Empty => view_items(items@).len() == 0,
            ArrayShape::Table(keys) => {
                &&& is_uniform(view_items(items@))
                &&& keys@.len() == uniform_keys(view_items(items@)).len()
                &&& forall|j: int|
                    0 <= j < keys@.len() ==> (#[trigger] keys@[j])@ == uniform_keys(
                        view_items(items@),
                    )[j]
            },
            ArrayShape::Inline => view_items(items@).len() > 0 && !is_uniform(view_items(items@))
                && all_scalars(view_items(items@)),
            ArrayShape::Expanded => view_items(items@).len() > 0 && !is_uniform(view_items(items@))
                && !all_scalars(view_items(items@)),
        },
{
    let ghost vitems = view_items(items@);
    proof {
        lemma_view_items(items@);
    }
    let n = items.len();
    if n == 0 {
        return ArrayShape::Empty;
    }
    let mut uniform = true;
    let mut keys: Vec<String> = Vec::new();
    match &items[0] {
        Value::Obj(es0) => {
            proof {
                lemma_view_entries(es0@);
            }
            let ghost ves0 = view_entries(es0@);
            proof {
                assert(vitems[0] == items@[0]@);
                assert(items@[0]@ == SpecValue::Obj(ves0));
            }
            let e0n = es0.len();
            let mut j: usize = 0;
            while j < e0n && uniform
                invariant
                    j <= e0n == es0@.len(),
                    vitems[0] == SpecValue::Obj(ves0),
                    ves0 == view_entries(es0@),
                    uniform ==> keys@.len() == j && forall|t: int|
                        0 <= t < j ==> (#[trigger] keys@[t])@ == ves0[t].0 && spec_is_scalar(
                            ves0[t].1,
                        ),
                    !uniform ==> !is_uniform(vitems),
                decreases e0n - j,
            {
                if items_entry_scalar(es0, j) {
                    let ghost old_keys = keys@;
                    keys.push(es0[j].0.clone());
                    proof {
                        assert(ves0[j as int] == (es0@[j as int].0@, es0@[j as int].1@));
                        assert forall|t: int|
                            0 <= t <= j implies (#[trigger] keys@[t])@ == ves0[t].0
                            && spec_is_scalar(ves0[t].1) by {
                            if t < j {
                                assert(keys@[t] == old_keys[t]);
                            } else {
                                assert(keys@[t]@ == ves0[j as int].0);
                            }
                        }
                    }
                } else {
                    proof {
                        assert(obj_entries(vitems[0])[j as int] == ves0[j as int]);
                    }
                    uniform = false;
                }
                j = j + 1;
            }
            if uniform {
                let keys = keys;
                proof {
                    assert(keys@.len() == ves0.len());
                    assert(forall|t: int|
                        0 <= t < keys@.len() ==> (#[trigger] keys@[t])@ == ves0[t].0
                            && spec_is_scalar(ves0[t].1));
                }
                let mut i: usize = 1;
                while i < n && uniform
                    invariant
                        1 <= i <= n == items@.len(),
                        uniform ==> forall|t: int|
                            1 <= t < i ==> (#[trigger] vitems[t]) is Obj && obj_entries(
                                vitems[t],
                            ).len() == keys@.len() && forall|u: int|
                                0 <= u < keys@.len() ==> has_key(
                                    obj_entries(vitems[t]),
                                    (#[trigger] keys@[u])@,
                                ) && spec_is_scalar(lookup(obj_entries(vitems[t]), keys@[u]@)),
                        !uniform ==> !is_uniform(vitems),
                    decreases n - i,
                {
                    match &items[i] {
                        Value::Obj(es) => {
                            proof {
                                lemma_view_entries(es@);
                                assert(vitems[i as int] == items@[i as int]@);
                                assert(items@[i as int]@ == SpecValue::Obj(view_entries(es@)));
                                assert(obj_entries(vitems[0]) == ves0);
                            }
                            if es.len() != keys.len() {
                                proof {
                                    assert(obj_entries(vitems[i as int]).len() != uniform_keys(
                                        vitems,
                                    ).len());
                                }
                                uniform = false;
                            } else if !check_record(es, &keys) {
                                proof {
                                    let ves = view_entries(es@);
                                    let u = choose|u: int|
                                        0 <= u < keys@.len() && !(has_key(
                                            ves,
                                            (#[trigger] keys@[u])@,
                                        ) && spec_is_scalar(lookup(ves, keys@[u]@)));
                                    assert(uniform_keys(vitems) =~= keys@.map_values(
                                        |s: String| s@,
                                    ));
                                    assert(uniform_keys(vitems)[u] == keys@[u]@);
                                    if is_uniform(vitems) {
                                        assert(has_key(
                                            obj_entries(vitems[i as int]),
                                            uniform_keys(vitems)[u],
                                        ) && spec_is_scalar(
                                            lookup(
                                                obj_entries(vitems[i as int]),
                                                uniform_keys(vitems)[u],
                                            ),
                                        ));
                                        assert(false);
                                    }
                                }
                                uniform = false;
                            }
                        },
                        _ => {
                            proof {
                                assert(!(vitems[i as int] is Obj));
                            }
                            uniform = false;
                        },
                    }
                    i = i + 1;
                }
                if uniform {
                    proof {
                        assert(keys@.len() == ves0.len());
                        assert(forall|t: int|
                            0 <= t < keys@.len() ==> (#[trigger] keys@[t])@ == ves0[t].0
                                && spec_is_scalar(ves0[t].1));
                        assert(obj_entries(vitems[0]) == ves0);
                        assert(uniform_keys(vitems) =~= keys@.map_values(|s: String| s@));
                        assert(forall|j2: int|
                            0 <= j2 < keys@.len() ==> (#[trigger] keys@[j2])@ == uniform_keys(
                                vitems,
                            )[j2]);
                        assert(forall|t: int|
                            0 <= t < vitems.len() ==> (#[trigger] vitems[t]) is Obj);
                        assert forall|j2: int|
                            0 <= j2 < obj_entries(vitems[0]).len() implies spec_is_scalar(
                            (#[trigger] obj_entries(vitems[0])[j2]).1,
                        ) by {
                            assert(obj_entries(vitems[0]) == ves0);
                            assert(0 <= j2 < keys@.len());
                            let kj = keys@[j2];
                            assert(kj@ == ves0[j2].0 && spec_is_scalar(ves0[j2].1));
                        }
                        assert(uniform_keys(vitems).len() == keys@.len());
                        assert(forall|t: int|
                            1 <= t < vitems.len() ==> obj_entries(#[trigger] vitems[t]).len()
                                == uniform_keys(vitems).len());
                        assert forall|t: int, j2: int|
                            1 <= t < vitems.len() && 0 <= j2 < uniform_keys(vitems).len() implies
                            has_key(
                                obj_entries(#[trigger] vitems[t]),
                                #[trigger] uniform_keys(vitems)[j2],
                            ) && spec_is_scalar(
                                lookup(obj_entries(vitems[t]), uniform_keys(vitems)[j2]),
                            ) by {
                            assert(has_key(obj_entries(vitems[t]), (keys@[j2])@)
                                && spec_is_scalar(lookup(obj_entries(vitems[t]), keys@[j2]@)));
                        }
                        assert(is_uniform(vitems));
                    }
                    return ArrayShape::Table(keys);
                }
            }
        },
        _ => {
            proof {
                assert(!(vitems[0] is Obj));
            }
            uniform = false;
        },
    }
    // Not uniform: inline when everything is a scalar, expanded otherwise.
    let mut i: usize = 0;
    while i < n
        invariant
            i <= n == items@.len(),
            vitems == view_items(items@),
            !is_uniform(vitems),
            forall|t: int| 0 <= t < i ==> spec_is_scalar(#[trigger] vitems[t]),
        decreases n - i,
    {
        if !items[i].is_scalar() {
            return ArrayShape::Expanded;
        }
        i = i + 1;
    }
    ArrayShape::Inline
}

/// Whether one entry of an object holds a scalar value.
fn items_entry_scalar(es: &Vec<(String, Value)>, j: usize) -> (r: bool)
    requires
        j < es@.len(),
    ensures
        r == spec_is_scalar(view_entries(es@)[j as int].1),
{
    proof {
        lemma_view_entries(es@);
    }
    es[j].1.is_scalar()
}

/// What follows the first `i` entries in an object's rendering.
pub open spec fn obj_tail(
    es: Seq<(Seq<char>, SpecValue)>,
    i: int,
    level: nat,
    d: char,
    w: nat,
    m: bool,
) -> Seq<char> {
    if i >= es.len() {
        Seq::empty()
    } else {
        seq!['\n'] + enc_object(es.skip(i), level, false, d, w, m)
    }
}

/// What follows the first `j` keys in a tabular header's field list.
pub open spec fn keys_tail(keys: Seq<Seq<char>>, j: int, d: char) -> Seq<char> {
    if j >= keys.len() {
        Seq::empty()
    } else {
        seq![d] + enc_keys(keys.skip(j), d)
    }
}

/// What follows the first `j` tokens in a delimiter-joined scalar row.
pub open spec fn row_tail(vals: Seq<SpecValue>, j: int, d: char) -> Seq<char> {
    if j >= vals.len() {
        Seq::empty()
    } else {
        seq![d] + enc_scalar_row(vals.skip(j), d)
    }
}

/// Appends an array header.
fn push_header(r: &mut Vec<char>, n: usize, d: char, m: bool)
    ensures
        final(r)@ == old(r)@ + header(n as nat, d, m),
{
    r.push('[');
    if m {
        let mut dg = fmt_u64(n as u64);
        r.append(&mut dg);
        r.push(d);
    }
    r.push(']');
    proof {
        assert(n as u64 as int == n as int);
        assert(r@ =~= old(r)@ + header(n as nat, d, m));
    }

}

/// Renders one `key: value` entry.
#[verifier::loop_isolation(false)]
pub fn enc_entry_exec(
    k: &String,
    v: &Value,
    indent: &Vec<char>,
    Ghost(level): Ghost<nat>,
    d: char,
    w: usize,
    m: bool,
) -> (r: Vec<char>)
    requires
        spec_value_wf(v@),
        indent@ == ind(level, w as nat),
    ensures
        r@ == enc_entry((k@, v@), level, d, w as nat, m),
    decreases v, 2int,
{
    let kc = str_to_chars(k.as_str());
    let mut r = enc_key(&kc, d);
    r.push(':');
    if v.is_scalar() {
        r.push(' ');
        let mut sc = enc_scalar_exec(v, d);
        r.append(&mut sc);
        proof {
            assert(r@ =~= enc_entry((k@, v@), level, d, w as nat, m));
        }
    } else {
        let indent2 = deeper_indent(indent, w, Ghost(level));
        let mut sub = enc_container_exec(v, &indent2, Ghost(level + 1), false, d, w, m);
        if sub.len() == 0 {
            proof {
                assert(r@ =~= enc_entry((k@, v@), level, d, w as nat, m));
            }
        } else {
            r.push('\n');
            r.append(&mut sub);
            proof {
                assert(r@ =~= enc_entry((k@, v@), level, d, w as nat, m));
            }
        }
    }
    r
}

/// Renders the lines of an object.
#[verifier::loop_isolation(false)]
pub fn enc_object_exec(
    es: &Vec<(String, Value)>,
    indent: &Vec<char>,
    Ghost(level): Ghost<nat>,
    bare_first: bool,
    d: char,
    w: usize,
    m: bool,
) -> (r: Vec<char>)
    requires
        spec_value_wf(SpecValue::Obj(view_entries(es@))),
        indent@ == ind(level, w as nat),
    ensures
        r@ == enc_object(view_entries(es@), level, bare_first, d, w as nat, m),
    decreases es, 3int,
{
    let ghost ves = view_entries(es@);
    proof {
        lemma_view_entries(es@);
    }
    let n = es.len();
    let mut r: Vec<char> = Vec::new();
    let mut i: usize = 0;
    while i < n
        invariant
            i <= n,
            i == 0 ==> r@ == Seq::<char>::empty(),
            i > 0 ==> enc_object(ves, level, bare_first, d, w as nat, m) == r@ + obj_tail(
                ves,
                i as int,
                level,
                d,
                w as nat,
                m,
            ),
        decreases n - i,
    {
        proof {
            assert(ves[i as int] == (es@[i as int].0@, es@[i as int].1@));
            assert(entries_wf(ves));
            lemma_wf_obj(ves, i as int);
        }
        if i > 0 {
            r.push('\n');
        }
        if !(bare_first && i == 0) {
            let mut ic = copy_chars(indent);
            r.append(&mut ic);
        }
        let mut e = enc_entry_exec(&es[i].0, &es[i].1, indent, Ghost(level), d, w, m);
        r.append(&mut e);
        proof {
            assert(ves.skip(i as int)[0] == ves[i as int]);
            assert(ves.skip(i as int).skip(1) =~= ves.skip(i as int + 1));
            if i == 0 {
                assert(ves.skip(0) =~= ves);
                assert(enc_object(ves, level, bare_first, d, w as nat, m) =~= r@ + obj_tail(
                    ves,
                    i as int + 1,
                    level,
                    d,
                    w as nat,
                    m,
                ));
            } else {
                assert(enc_object(ves, level, bare_first, d, w as nat, m) =~= r@ + obj_tail(
                    ves,
                    i as int + 1,
                    level,
                    d,
                    w as nat,
                    m,
                ));
            }
        }
        i = i + 1;
    }
    proof {
        if n > 0 {
            assert(enc_object(ves, level, bare_first, d, w as nat, m) =~= r@);
        } else {
            assert(enc_object(ves, level, bare_first, d, w as nat, m) =~= r@);
        }
    }
    r
}

/// Renders one tabular data row: the record's values in column order.
#[verifier::loop_isolation(false)]
#[verifier::rlimit(100)]
#[verifier::spinoff_prover]
fn enc_row_exec(es: &Vec<(String, Value)>, keys: &Vec<String>, d: char) -> (r: Vec<char>)
    requires
        entries_wf(view_entries(es@)),
        forall|u: int|
            0 <= u < keys@.len() ==> has_key(view_entries(es@), (#[trigger] keys@[u])@)
                && spec_is_scalar(lookup(view_entries(es@), keys@[u]@)),
    ensures
        r@ == enc_scalar_row(
            row_values(view_entries(es@), keys@.map_values(|s: String| s@)),
            d,
        ),
{
    let ghost ves = view_entries(es@);
    let ghost kseq = keys@.map_values(|s: String| s@);
    let ghost rvs = row_values(ves, kseq);
    let mut r: Vec<char> = Vec::new();
    let kn = keys.len();
    let mut u: usize = 0;
    while u < kn
        invariant
            u <= kn == kseq.len(),
            u == 0 ==> r@ == Seq::<char>::empty(),
            u > 0 ==> enc_scalar_row(rvs, d) == r@ + row_tail(rvs, u as int, d),
        decreases kn - u,
    {
        if u > 0 {
            r.push(d);
        }
        proof {
            assert(kseq[u as int] == keys@[u as int]@);
            lemma_lookup_is_entry(ves, kseq[u as int]);
            let widx = choose|t: int|
                0 <= t < ves.len() && (#[trigger] ves[t]).0 == kseq[u as int] && lookup(
                    ves,
                    kseq[u as int],
                ) == ves[t].1;
            lemma_wf_obj(ves, widx);
            assert(spec_value_wf(lookup(ves, kseq[u as int])));
        }
        match lookup_value(es, &keys[u]) {
            Some(fv) => {
                let mut tok = enc_scalar_exec(fv, d);
                r.append(&mut tok);
            },
            None => {
                proof {
                    assert(false);
                }
            },
        }
        proof {
            assert(rvs[u as int] == lookup(ves, kseq[u as int]));
            assert(rvs.skip(u as int)[0] == rvs[u as int]);
            assert(rvs.skip(u as int).skip(1) =~= rvs.skip(u as int + 1));
            if u == 0 {
                assert(rvs.skip(0) =~= rvs);
            }
            assert(enc_scalar_row(rvs, d) =~= r@ + row_tail(rvs, u as int + 1, d));
        }
        u = u + 1;
    }
    proof {
        if kn > 0 {
            assert(enc_scalar_row(rvs, d) =~= r@);
        } else {
            assert(enc_scalar_row(rvs, d) =~= r@);
        }
    }
    r
}

/// Renders a tabular array: header, field list, and one row per record.
#[verifier::loop_isolation(false)]
#[verifier::rlimit(100)]
#[verifier::spinoff_prover]
fn enc_table_exec(
    items: &Vec<Value>,
    indent: &Vec<char>,
    Ghost(level): Ghost<nat>,
    bare_first: bool,
    d: char,
    w: usize,
    m: bool,
    keys: Vec<String>,
) -> (r: Vec<char>)
    requires
        spec_value_wf(SpecValue::Arr(view_items(items@))),
        indent@ == ind(level, w as nat),
        is_uniform(view_items(items@)),
        keys@.len() == uniform_keys(view_items(items@)).len(),
        forall|j: int|
            0 <= j < keys@.len() ==> (#[trigger] keys@[j])@ == uniform_keys(view_items(items@))[j],
    ensures
        r@ == enc_array(view_items(items@), level, bare_first, d, w as nat, m),
{
    let ghost vitems = view_items(items@);
    proof {
        lemma_view_items(items@);
    }
    let n = items.len();
    let mut r: Vec<char> = if bare_first {
        Vec::new()
    } else {
        copy_chars(indent)
    };
    let ghost base = r@;

    let ghost kseq = uniform_keys(vitems);
    push_header(&mut r, n, d, m);
    r.push('{');
    let kn = keys.len();
    let ghost head = r@;
    let mut j: usize = 0;
    while j < kn
        invariant
            j <= kn == kseq.len(),
            j == 0 ==> r@ == head,
            j > 0 ==> head + enc_keys(kseq, d) == r@ + keys_tail(kseq, j as int, d),
        decreases kn - j,
    {
        if j > 0 {
            r.push(d);
        }
        let kc = str_to_chars(keys[j].as_str());
        let mut ek = enc_key(&kc, d);
        r.append(&mut ek);
        proof {
            assert(kc@ == kseq[j as int]);
            assert(kseq.skip(j as int)[0] == kseq[j as int]);
            assert(kseq.skip(j as int).skip(1) =~= kseq.skip(j as int + 1));
            if j == 0 {
                assert(kseq.skip(0) =~= kseq);
            }
            assert(head + enc_keys(kseq, d) =~= r@ + keys_tail(kseq, j as int + 1, d));
        }
        j = j + 1;
    }
    proof {
        if kn > 0 {
            assert(head + enc_keys(kseq, d) =~= r@);
        } else {
            assert(head + enc_keys(kseq, d) =~= r@);
        }
    }
    r.push('}');
    r.push(':');
    let indent2 = deeper_indent(indent, w, Ghost(level));
    let ghost head2 = r@;
    proof {
        assert(vitems.skip(0) =~= vitems);
    }
    let mut i: usize = 0;
    while i < n
        invariant
            i <= n == vitems.len(),
            indent2@ == ind(level + 1, w as nat),
            head2 + enc_rows(vitems, kseq, level + 1, d, w as nat) == r@ + enc_rows(
                vitems.skip(i as int),
                kseq,
                level + 1,
                d,
                w as nat,
            ),
        decreases n - i,
    {
        r.push('\n');
        let mut ic = copy_chars(&indent2);
        r.append(&mut ic);
        let ghost rowhead = r@;
        match &items[i] {
            Value::Obj(es) => {
                proof {
                    lemma_view_entries(es@);
                    assert(vitems[i as int] == items@[i as int]@);
                    assert(vitems[i as int] == SpecValue::Obj(view_entries(es@)));
                    let ves = view_entries(es@);
                    lemma_wf_arr(vitems, i as int);
                    assert(entries_wf(ves));
                    assert forall|u: int| 0 <= u < keys@.len() implies has_key(
                        ves,
                        (#[trigger] keys@[u])@,
                    ) && spec_is_scalar(lookup(ves, keys@[u]@)) by {
                        assert(kseq[u] == keys@[u]@);
                        if i == 0 {
                            assert(obj_entries(vitems[0])[u].0 == kseq[u]);
                            assert(has_key(ves, kseq[u]));
                            lemma_lookup_is_entry(ves, kseq[u]);
                        } else {
                            assert(has_key(obj_entries(vitems[i as int]), kseq[u]));
                        }
                    }
                }
                let mut row = enc_row_exec(es, &keys, d);
                r.append(&mut row);
                proof {
                    let ves = view_entries(es@);
                    assert(keys@.map_values(|s: String| s@) =~= kseq);
                    assert(row_values(ves, kseq) == row_values(
                        ves,
                        keys@.map_values(|s: String| s@),
                    ));
                    assert(vitems.skip(i as int)[0] == vitems[i as int]);
                    assert(vitems.skip(i as int).skip(1) =~= vitems.skip(i as int + 1));
                    assert(head2 + enc_rows(vitems, kseq, level + 1, d, w as nat) =~= r@
                        + enc_rows(
                        vitems.skip(i as int + 1),
                        kseq,
                        level + 1,
                        d,
                        w as nat,
                    ));
                }
            },
            _ => {
                proof {
                    assert(vitems[i as int] == items@[i as int]@);
                    assert(vitems[i as int] is Obj);
                    assert(false);
                }
            },
        }
        i = i + 1;
    }
    proof {
        assert(vitems.skip(n as int) =~= Seq::<SpecValue>::empty());
        assert(r@ =~= enc_array(vitems, level, bare_first, d, w as nat, m));
    }
    r

}

/// Renders an inline array of scalars.
#[verifier::loop_isolation(false)]
#[verifier::rlimit(100)]
#[verifier::spinoff_prover]
fn enc_inline_exec(
    items: &Vec<Value>,
    indent: &Vec<char>,
    Ghost(level): Ghost<nat>,
    bare_first: bool,
    d: char,
    w: usize,
    m: bool,
) -> (r: Vec<char>)
    requires
        spec_value_wf(SpecValue::Arr(view_items(items@))),
        indent@ == ind(level, w as nat),
        view_items(items@).len() > 0,
        !is_uniform(view_items(items@)),
        all_scalars(view_items(items@)),
    ensures
        r@ == enc_array(view_items(items@), level, bare_first, d, w as nat, m),
{
    let ghost vitems = view_items(items@);
    proof {
        lemma_view_items(items@);
    }
    let n = items.len();
    let mut r: Vec<char> = if bare_first {
        Vec::new()
    } else {
        copy_chars(indent)
    };
    let ghost base = r@;

    push_header(&mut r, n, d, m);
    r.push(':');
    r.push(' ');
    let ghost head = r@;
    let mut i: usize = 0;
    while i < n
        invariant
            i <= n == vitems.len(),
            i == 0 ==> r@ == head,
            i > 0 ==> head + enc_scalar_row(vitems, d) == r@ + row_tail(
                vitems,
                i as int,
                d,
            ),
        decreases n - i,
    {
        if i > 0 {
            r.push(d);
        }
        proof {
            assert(vitems[i as int] == items@[i as int]@);
            lemma_wf_arr(vitems, i as int);
            assert(spec_is_scalar(vitems[i as int]) && spec_value_wf(vitems[i as int]));
        }
        let mut tok = enc_scalar_exec(&items[i], d);
        r.append(&mut tok);
        proof {
            assert(vitems.skip(i as int)[0] == vitems[i as int]);
            assert(vitems.skip(i as int).skip(1) =~= vitems.skip(i as int + 1));
            if i == 0 {
                assert(vitems.skip(0) =~= vitems);
            }
            assert(head + enc_scalar_row(vitems, d) =~= r@ + row_tail(
                vitems,
                i as int + 1,
                d,
            ));
        }
        i = i + 1;
    }
    proof {
        assert(head + enc_scalar_row(vitems, d) =~= r@);
        assert(r@ =~= enc_array(vitems, level, bare_first, d, w as nat, m));
    }
    r

}

/// Renders an expanded array: one dash item per element.
#[verifier::loop_isolation(false)]
#[verifier::rlimit(100)]
#[verifier::spinoff_prover]
fn enc_expanded_exec(
    items: &Vec<Value>,
    indent: &Vec<char>,
    Ghost(level): Ghost<nat>,
    bare_first: bool,
    d: char,
    w: usize,
    m: bool,
) -> (r: Vec<char>)
    requires
        spec_value_wf(SpecValue::Arr(view_items(items@))),
        indent@ == ind(level, w as nat),
        view_items(items@).len() > 0,
        !is_uniform(view_items(items@)),
        !all_scalars(view_items(items@)),
    ensures
        r@ == enc_array(view_items(items@), level, bare_first, d, w as nat, m),
    decreases items, 4int,
{
    let ghost vitems = view_items(items@);
    proof {
        lemma_view_items(items@);
    }
    let n = items.len();
    let mut r: Vec<char> = if bare_first {
        Vec::new()
    } else {
        copy_chars(indent)
    };
    let ghost base = r@;

    push_header(&mut r, n, d, m);
    r.push(':');
    let indent2 = deeper_indent(indent, w, Ghost(level));
    let indent3 = deeper_indent(&indent2, w, Ghost(level + 1));
    let ghost head = r@;
    proof {
        assert(vitems.skip(0) =~= vitems);
    }
    let mut i: usize = 0;
    while i < n
        invariant
            i <= n == vitems.len(),
            indent2@ == ind(level + 1, w as nat),
            indent3@ == ind(level + 2, w as nat),
            head + enc_mixed(vitems, level + 1, d, w as nat, m) == r@ + enc_mixed(
                vitems.skip(i as int),
                level + 1,
                d,
                w as nat,
                m,
            ),
        decreases n - i,
    {
        r.push('\n');
        let mut ic = copy_chars(&indent2);
        r.append(&mut ic);
        r.push('-');
        r.push(' ');
        proof {
            assert(vitems[i as int] == items@[i as int]@);
            lemma_wf_arr(vitems, i as int);
            assert(spec_value_wf(vitems[i as int]));
        }
        let item = &items[i];
        if item.is_scalar() {
            let mut tok = enc_scalar_exec(item, d);
            r.append(&mut tok);
        } else {
            let mut sub = enc_container_exec(
                item,
                &indent3,
                Ghost(level + 2),
                true,
                d,
                w,
                m,
            );
            r.append(&mut sub);
        }
        proof {
            assert(vitems.skip(i as int)[0] == vitems[i as int]);
            assert(vitems.skip(i as int).skip(1) =~= vitems.skip(i as int + 1));
            assert(head + enc_mixed(vitems, level + 1, d, w as nat, m) =~= r@ + enc_mixed(
                vitems.skip(i as int + 1),
                level + 1,
                d,
                w as nat,
                m,
            ));
        }
        i = i + 1;
    }
    proof {
        assert(vitems.skip(n as int) =~= Seq::<SpecValue>::empty());
        assert(r@ =~= enc_array(vitems, level, bare_first, d, w as nat, m));
    }
    r

}

/// Renders the lines of an array.
#[verifier::loop_isolation(false)]
pub fn enc_array_exec(
    items: &Vec<Value>,
    indent: &Vec<char>,
    Ghost(level): Ghost<nat>,
    bare_first: bool,
    d: char,
    w: usize,
    m: bool,
) -> (r: Vec<char>)
    requires
        spec_value_wf(SpecValue::Arr(view_items(items@))),
        indent@ == ind(level, w as nat),
    ensures
        r@ == enc_array(view_items(items@), level, bare_first, d, w as nat, m),
    decreases items, 5int,
{
    let ghost vitems = view_items(items@);
    proof {
        lemma_view_items(items@);
    }
    let shape = classify_array(items);
    match shape {
        ArrayShape::Empty => {
            let mut r: Vec<char> = if bare_first {
                Vec::new()
            } else {
                copy_chars(indent)
            };
            push_header(&mut r, 0, d, m);
            r.push(':');
            proof {
                assert(r@ =~= enc_array(vitems, level, bare_first, d, w as nat, m));
            }
            r
        },
        ArrayShape::Table(keys) => enc_table_exec(
            items,
            indent,
            Ghost(level),
            bare_first,
            d,
            w,
            m,
            keys,
        ),
        ArrayShape::Inline => enc_inline_exec(items, indent, Ghost(level), bare_first, d, w, m),
        ArrayShape::Expanded => enc_expanded_exec(
            items,
            indent,
            Ghost(level),
            bare_first,
            d,
            w,
            m,
        ),
    }
}

/// Renders the block of a container value.
pub fn enc_container_exec(
    v: &Value,
    indent: &Vec<char>,
    Ghost(level): Ghost<nat>,
    bare_first: bool,
    d: char,
    w: usize,
    m: bool,
) -> (r: Vec<char>)
    requires
        spec_value_wf(v@),
        indent@ == ind(level, w as nat),
    ensures
        r@ == enc_container(v@, level, bare_first, d, w as nat, m),
    decreases v, 1int,
{
    match v {
        Value::Obj(es) => enc_object_exec(es, indent, Ghost(level), bare_first, d, w, m),
        Value::Arr(items) => enc_array_exec(items, indent, Ghost(level), bare_first, d, w, m),
        _ => Vec::new(),
    }
}

/// Renders a whole value at the outermost level.
pub fn enc_doc_exec(v: &Value, d: char, w: usize, m: bool) -> (r: Vec<char>)
    requires
        spec_value_wf(v@),
    ensures
        r@ == enc_doc(v@, d, w as nat, m),
{
    if v.is_scalar() {
        enc_scalar_exec(v, d)
    } else {
        let indent: Vec<char> = Vec::new();
        proof {
            assert(indent@ =~= ind(0, w as nat));
        }
        enc_container_exec(v, &indent, Ghost(0nat), false, d, w, m)
    }
}


/// Every well-formed scalar's token parses back to the same scalar: the
/// encoder's scalar rendering and the decoder's scalar parsing invert each
/// other, whatever the delimiter.
pub proof fn lemma_scalar_roundtrip(v: SpecValue, d: char)
    requires
        spec_is_scalar(v),
        spec_value_wf(v),
    ensures
        parse_scalar_spec(enc_scalar(v, d)) == Some(v),
{
    match v {
        SpecValue::Null => {
            let t = null_chars();
            assert(!is_blank(t[0]) && !is_blank(t.last()));
            assert(trim_spec(t) == t);
            assert(t[0] != '"');
            assert(t != true_chars() && t != false_chars());
        },
        SpecValue::Bool(b) => {
            let t = enc_scalar(v, d);
            assert(!is_blank(t[0]) && !is_blank(t.last()));
            assert(trim_spec(t) == t);
            assert(t[0] != '"');
            if b {
                assert(t == true_chars());
            } else {
                assert(t != true_chars()) by {
                    if t == true_chars() {
                        assert(false);
                    }
                }
            }
        },
        SpecValue::Int(n) => {
            lemma_int_roundtrip(n);
            let t = int_digits(n);
            if n < 0 {
                lemma_nat_digits(-n);
                assert(t[0] == '-');
                assert(t.last() == nat_digits(-n).last());
                assert(is_digit(t.last()));
            } else {
                lemma_nat_digits(n);
                assert(is_digit(t[0]) && is_digit(t.last()));
            }
            assert(!is_blank(t[0]) && !is_blank(t.last()));
            assert(trim_spec(t) == t);
            assert(t[0] != '"');
            lemma_token_shape(t);
        },
        SpecValue::Dec { neg, whole, frac } => {
            lemma_dec_roundtrip(neg, whole as int, frac);
            lemma_nat_digits(whole as int);
            crate::number::lemma_frac_chars(frac);
            let t = dec_digits(neg, whole as int, frac);
            assert(t.last() == frac_chars(frac).last());
            assert(is_digit(t.last()));
            if neg {
                assert(t[0] == '-');
            } else {
                assert(t[0] == nat_digits(whole as int)[0]);
                assert(is_digit(t[0]));
            }
            assert(!is_blank(t[0]) && !is_blank(t.last()));
            assert(trim_spec(t) == t);
            assert(t[0] != '"');
            lemma_token_shape(t);
        },
        SpecValue::Str(s) => {
            lemma_quoted_roundtrip(s, d);
        },
        _ => {},
    }
}

/// A numeric token is never a reserved word: its first character is a digit
/// or a minus sign.
proof fn lemma_token_shape(t: Seq<char>)
    requires
        t.len() > 0,
        is_digit(t[0]) || t[0] == '-',
    ensures
        t != true_chars(),
        t != false_chars(),
        t != null_chars(),
{
    if t == true_chars() || t == false_chars() || t == null_chars() {
        assert(!is_digit(t[0]) && t[0] != '-');
        assert(false);
    }
}


/// Tabular shape: a uniform record array renders as one header line whose
/// field list is exactly the first record's keys in insertion order,
/// followed by the data rows, one per element in element order, each row
/// carrying one field value per header key.
pub proof fn lemma_tabular_shape(items: Seq<SpecValue>, level: nat, d: char, w: nat, m: bool)
    requires
        is_uniform(items),
    ensures
        uniform_keys(items).len() == obj_entries(items[0]).len(),
        forall|j: int|
            0 <= j < uniform_keys(items).len() ==> uniform_keys(items)[j] == (
            #[trigger] obj_entries(items[0])[j]).0,
        enc_array(items, level, false, d, w, m) == ind(level, w) + header(items.len(), d, m)
            + seq!['{'] + enc_keys(uniform_keys(items), d) + seq!['}', ':'] + enc_rows(
            items,
            uniform_keys(items),
            level + 1,
            d,
            w,
        ),
        forall|i: int|
            0 <= i < items.len() ==> row_values(
                obj_entries(#[trigger] items[i]),
                uniform_keys(items),
            ).len() == uniform_keys(items).len(),
{
}

} // verus!

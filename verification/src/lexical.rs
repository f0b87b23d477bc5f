//! The lexical rules shared by encoder and decoder: string escaping and
//! unescaping, the quoting-necessity predicate, identifier validity, and
//! scalar token parsing.

use vstd::prelude::*;
use crate::number::{find_char, is_digit, number_token_val, parse_number};
use crate::value::{SpecValue, Value, spec_value_wf};
use crate::ToonError;

verus! {

/// The escape expansion of one character: backslash, double quote, newline,
/// carriage return and tab become two-character sequences, everything else
/// passes through.
pub open spec fn esc_char(c: char) -> Seq<char> {
    if c == '\\' {
        seq!['\\', '\\']
    } else if c == '"' {
        seq!['\\', '"']
    } else if c == '\n' {
        seq!['\\', 'n']
    } else if c == '\r' {
        seq!['\\', 'r']
    } else if c == '\t' {
        seq!['\\', 't']
    } else {
        seq![c]
    }
}

/// The escaped form of a string.
pub open spec fn escape_spec(s: Seq<char>) -> Seq<char>
    decreases s,
{
    if s.len() == 0 {
        Seq::empty()
    } else {
        esc_char(s[0]) + escape_spec(s.skip(1))
    }
}

/// The character an escape code stands for, or `None` for an invalid code.
pub open spec fn unesc_char(c: char) -> Option<char> {
    if c == '\\' {
        Some('\\')
    } else if c == '"' {
        Some('"')
    } else if c == 'n' {
        Some('\n')
    } else if c == 'r' {
        Some('\r')
    } else if c == 't' {
        Some('\t')
    } else {
        None
    }
}

/// The unescaped form of a string: `None` on an invalid escape code or a
/// trailing lone backslash.
pub open spec fn unescape_spec(s: Seq<char>) -> Option<Seq<char>>
    decreases s,
{
    if s.len() == 0 {
        Some(Seq::empty())
    } else if s[0] == '\\' {
        if s.len() == 1 {
            None
        } else {
            match unesc_char(s[1]) {
                None => None,
                Some(u) => match unescape_spec(s.skip(2)) {
                    None => None,
                    Some(rest) => Some(seq![u] + rest),
                },
            }
        }
    } else {
        match unescape_spec(s.skip(1)) {
            None => None,
            Some(rest) => Some(seq![s[0]] + rest),
        }
    }
}

/// Whether unescaping fails on a trailing lone backslash rather than on an
/// invalid escape code.
pub open spec fn unescape_unterminated(s: Seq<char>) -> bool
    decreases s,
{
    if s.len() == 0 {
        false
    } else if s[0] == '\\' {
        if s.len() == 1 {
            true
        } else {
            match unesc_char(s[1]) {
                None => false,
                Some(_) => unescape_unterminated(s.skip(2)),
            }
        }
    } else {
        unescape_unterminated(s.skip(1))
    }
}

/// The escape code unescaping fails on, where it fails on an invalid code.
pub open spec fn bad_escape_code(s: Seq<char>) -> char
    decreases s,
{
    if s.len() == 0 {
        ' '
    } else if s[0] == '\\' {
        if s.len() == 1 {
            ' '
        } else {
            match unesc_char(s[1]) {
                None => s[1],
                Some(_) => bad_escape_code(s.skip(2)),
            }
        }
    } else {
        bad_escape_code(s.skip(1))
    }
}

/// Escapes a string for the notation.
#[verifier::loop_isolation(false)]
pub fn escape_chars(s: &Vec<char>) -> (r: Vec<char>)
    ensures
        r@ == escape_spec(s@),
{
    let n = s.len();
    let mut r: Vec<char> = Vec::new();
    let mut i: usize = 0;
    proof {
        assert(s@.skip(0) =~= s@);
    }
    while i < n
        invariant
            i <= n,
            escape_spec(s@) == r@ + escape_spec(s@.skip(i as int)),
        decreases n - i,
    {
        let c = s[i];
        proof {
            assert(s@.skip(i as int)[0] == c);
            assert(s@.skip(i as int).skip(1) =~= s@.skip(i as int + 1));
        }
        match c {
            '\\' => {
                r.push('\\');
                r.push('\\');
            },
            '"' => {
                r.push('\\');
                r.push('"');
            },
            '\n' => {
                r.push('\\');
                r.push('n');
            },
            '\r' => {
                r.push('\\');
                r.push('r');
            },
            '\t' => {
                r.push('\\');
                r.push('t');
            },
            _ => {
                r.push(c);
            },
        }
        proof {
            assert(escape_spec(s@) =~= r@ + escape_spec(s@.skip(i as int + 1)));
        }
        i = i + 1;
    }
    proof {
        assert(s@.skip(n as int) =~= Seq::<char>::empty());
        assert(escape_spec(s@) =~= r@);
    }
    r
}

/// Unescapes a string of the notation; an invalid or unterminated escape
/// sequence is a decoding error whose message names what went wrong.
#[verifier::loop_isolation(false)]
pub fn unescape_chars(s: &Vec<char>) -> (r: Result<Vec<char>, ToonError>)
    ensures
        match unescape_spec(s@) {
            Some(u) => r is Ok && r.unwrap()@ == u,
            None => {
                &&& r is Err
                &&& r.unwrap_err() is DecodingError
                &&& unescape_unterminated(s@) ==> crate::spec_err_message(r.unwrap_err())
                    == "unterminated escape sequence"@
                &&& !unescape_unterminated(s@) ==> crate::spec_err_message(r.unwrap_err())
                    == "invalid escape sequence: \\"@ + seq![bad_escape_code(s@)]
            },
        },
{
    let n = s.len();
    let mut r: Vec<char> = Vec::new();
    let mut i: usize = 0;
    proof {
        assert(s@.skip(0) =~= s@);
    }
    while i < n
        invariant
            i <= n,
            unescape_spec(s@) is Some <==> unescape_spec(s@.skip(i as int)) is Some,
            unescape_spec(s@) is Some ==> unescape_spec(s@) == Some(
                r@ + unescape_spec(s@.skip(i as int)).unwrap(),
            ),
            unescape_unterminated(s@) == unescape_unterminated(s@.skip(i as int)),
            bad_escape_code(s@) == bad_escape_code(s@.skip(i as int)),
        decreases n - i,
    {
        let c = s[i];
        proof {
            assert(s@.skip(i as int)[0] == c);
        }
        if c == '\\' {
            if i + 1 == n {
                proof {
                    assert(s@.skip(i as int).len() == 1);
                }
                let msg = String::from_str("unterminated escape sequence");
                return Err(ToonError::DecodingError(msg));
            }
            let e = s[i + 1];
            proof {
                assert(s@.skip(i as int)[1] == e);
                assert(s@.skip(i as int).skip(2) =~= s@.skip(i as int + 2));
            }
            let u: char = match e {
                '\\' => '\\',
                '"' => '"',
                'n' => '\n',
                'r' => '\r',
                't' => '\t',
                _ => {
                    let mut msg = crate::chars::str_to_chars("invalid escape sequence: \\");
                    msg.push(e);
                    proof {
                        assert(msg@ == "invalid escape sequence: \\"@ + seq![e]);
                        assert(!unescape_unterminated(s@.skip(i as int)));
                        assert(bad_escape_code(s@.skip(i as int)) == e);
                    }
                    return Err(ToonError::DecodingError(crate::chars::chars_to_string(&msg)));
                },
            };
            r.push(u);
            proof {
                if unescape_spec(s@.skip(i as int + 2)) is Some {
                    assert(unescape_spec(s@.skip(i as int)).unwrap() =~= seq![u] + unescape_spec(
                        s@.skip(i as int + 2),
                    ).unwrap());
                    assert(r@ + unescape_spec(s@.skip(i as int + 2)).unwrap() =~= r@.drop_last()
                        + unescape_spec(s@.skip(i as int)).unwrap());
                }
            }
            i = i + 2;
        } else {
            r.push(c);
            proof {
                assert(s@.skip(i as int).skip(1) =~= s@.skip(i as int + 1));
                if unescape_spec(s@.skip(i as int + 1)) is Some {
                    assert(unescape_spec(s@.skip(i as int)).unwrap() =~= seq![c] + unescape_spec(
                        s@.skip(i as int + 1),
                    ).unwrap());
                    assert(r@ + unescape_spec(s@.skip(i as int + 1)).unwrap() =~= r@.drop_last()
                        + unescape_spec(s@.skip(i as int)).unwrap());
                }
            }
            i = i + 1;
        }
    }
    proof {
        assert(s@.skip(n as int) =~= Seq::<char>::empty());
        assert(unescape_spec(s@) == Some(r@ + Seq::<char>::empty()));
        if unescape_spec(s@) is Some {
            assert(unescape_spec(s@).unwrap() =~= r@);
        }
    }
    Ok(r)
}

/// The characters with structural meaning in the notation: they force a
/// string to be quoted wherever they occur.
pub open spec fn is_structural(c: char) -> bool {
    ||| c == ':'
    ||| c == '"'
    ||| c == '\\'
    ||| c == '\n'
    ||| c == '\r'
    ||| c == '\t'
    ||| c == '['
    ||| c == ']'
    ||| c == '{'
    ||| c == '}'
    ||| c == '-'
}

/// Control characters (the Unicode `Cc` category).
pub open spec fn is_control(c: char) -> bool {
    (c as int) < 32 || (127 <= c as int <= 159)
}

/// A character that keeps a string from standing bare: structural, control,
/// or the active delimiter.
pub open spec fn bad_char(c: char, d: char) -> bool {
    is_structural(c) || is_control(c) || c == d
}

pub open spec fn true_chars() -> Seq<char> {
    seq!['t', 'r', 'u', 'e']
}

pub open spec fn false_chars() -> Seq<char> {
    seq!['f', 'a', 'l', 's', 'e']
}

pub open spec fn null_chars() -> Seq<char> {
    seq!['n', 'u', 'l', 'l']
}

/// The reserved words of the notation.
pub open spec fn is_reserved(s: Seq<char>) -> bool {
    s == true_chars() || s == false_chars() || s == null_chars()
}

/// When a string must be quoted to survive as a bare token: empty, a space
/// at either edge, a reserved word, a numeric token, a leading zero that
/// does not open a fraction, or any structural, control or delimiter
/// character anywhere in it.
pub open spec fn needs_quoting_spec(s: Seq<char>, d: char) -> bool {
    ||| s.len() == 0
    ||| s[0] == ' '
    ||| s.last() == ' '
    ||| is_reserved(s)
    ||| number_token_val(s) is Some
    ||| (s[0] == '0' && s.len() > 1 && s[1] != '.')
    ||| exists|i: int| 0 <= i < s.len() && bad_char(#[trigger] s[i], d)
}

/// Decides whether a string needs quoting under the given delimiter.
#[verifier::loop_isolation(false)]
pub fn needs_quoting(s: &Vec<char>, d: char) -> (r: bool)
    ensures
        r == needs_quoting_spec(s@, d),
{
    let n = s.len();
    if n == 0 {
        return true;
    }
    if s[0] == ' ' || s[n - 1] == ' ' {
        return true;
    }
    if n == 4 && s[0] == 't' && s[1] == 'r' && s[2] == 'u' && s[3] == 'e' {
        proof {
            assert(s@ =~= true_chars());
        }
        return true;
    }
    if n == 5 && s[0] == 'f' && s[1] == 'a' && s[2] == 'l' && s[3] == 's' && s[4] == 'e' {
        proof {
            assert(s@ =~= false_chars());
        }
        return true;
    }
    if n == 4 && s[0] == 'n' && s[1] == 'u' && s[2] == 'l' && s[3] == 'l' {
        proof {
            assert(s@ =~= null_chars());
        }
        return true;
    }
    proof {
        assert(s@ != true_chars() && s@ != false_chars() && s@ != null_chars()) by {
            if s@ == true_chars() || s@ == false_chars() || s@ == null_chars() {
                assert(false);
            }
        }
    }
    if parse_number(s).is_some() {
        return true;
    }
    if s[0] == '0' && n > 1 && s[1] != '.' {
        return true;
    }
    let mut i: usize = 0;
    while i < n
        invariant
            i <= n,
            forall|k: int| 0 <= k < i ==> !bad_char(#[trigger] s@[k], d),
        decreases n - i,
    {
        let c = s[i];
        if c == ':' || c == '"' || c == '\\' || c == '\n' || c == '\r' || c == '\t' || c == '['
            || c == ']' || c == '{' || c == '}' || c == '-' {
            return true;
        }
        if c < ' ' || ('\u{7f}' <= c && c <= '\u{9f}') {
            proof {
                assert(is_control(c));
            }
            return true;
        }
        proof {
            assert(!is_control(c));
        }
        if c == d {
            return true;
        }
        i = i + 1;
    }
    false
}

/// The quoted-if-needed form of a string: quoted and escaped exactly when
/// `needs_quoting_spec` holds, bare otherwise.
pub open spec fn quote_spec(s: Seq<char>, d: char) -> Seq<char> {
    if needs_quoting_spec(s, d) {
        seq!['"'] + escape_spec(s) + seq!['"']
    } else {
        s
    }
}

/// Quotes a string when the notation requires it.
pub fn quote_if_needed(s: &Vec<char>, d: char) -> (r: Vec<char>)
    ensures
        r@ == quote_spec(s@, d),
{
    if needs_quoting(s, d) {
        let mut r: Vec<char> = Vec::new();
        r.push('"');
        let mut e = escape_chars(s);
        r.append(&mut e);
        r.push('"');
        proof {
            assert(r@ =~= seq!['"'] + escape_spec(s@) + seq!['"']);
        }
        r
    } else {
        let mut r: Vec<char> = Vec::new();
        let mut i: usize = 0;
        let n = s.len();
        while i < n
            invariant
                i <= n <= s@.len(),
                r@ =~= s@.take(i as int),
            decreases n - i,
        {
            r.push(s[i]);
            proof {
                assert(r@ =~= s@.take(i as int + 1));
            }
            i = i + 1;
        }
        proof {
            assert(r@ =~= s@);
        }
        r
    }
}

pub open spec fn ident_start(c: char) -> bool {
    ('A' <= c && c <= 'Z') || ('a' <= c && c <= 'z') || c == '_'
}

pub open spec fn ident_char(c: char) -> bool {
    ident_start(c) || is_digit(c) || c == '.'
}

/// A valid bare identifier: non-empty, an ASCII letter or underscore first,
/// then ASCII letters, digits, underscores or dots.
pub open spec fn is_valid_identifier_spec(s: Seq<char>) -> bool {
    &&& s.len() > 0
    &&& ident_start(s[0])
    &&& forall|i: int| 1 <= i < s.len() ==> ident_char(#[trigger] s[i])
}

/// Decides whether a key can be written bare.
#[verifier::loop_isolation(false)]
pub fn is_valid_identifier(s: &Vec<char>) -> (r: bool)
    ensures
        r == is_valid_identifier_spec(s@),
{
    let n = s.len();
    if n == 0 {
        return false;
    }
    let c0 = s[0];
    if !(('A' <= c0 && c0 <= 'Z') || ('a' <= c0 && c0 <= 'z') || c0 == '_') {
        return false;
    }
    let mut i: usize = 1;
    while i < n
        invariant
            1 <= i <= n,
            forall|k: int| 1 <= k < i ==> ident_char(#[trigger] s@[k]),
        decreases n - i,
    {
        let c = s[i];
        if !(('A' <= c && c <= 'Z') || ('a' <= c && c <= 'z') || ('0' <= c && c <= '9') || c == '_'
            || c == '.') {
            return false;
        }
        i = i + 1;
    }
    true
}

/// The written form of an object key: bare for a valid identifier, quoted
/// and escaped otherwise.
pub open spec fn enc_key_spec(k: Seq<char>, d: char) -> Seq<char> {
    if is_valid_identifier_spec(k) {
        k
    } else {
        seq!['"'] + escape_spec(k) + seq!['"']
    }
}

/// Renders an object key.
pub fn enc_key(k: &Vec<char>, d: char) -> (r: Vec<char>)
    ensures
        r@ == enc_key_spec(k@, d),
{
    if is_valid_identifier(k) {
        let mut r: Vec<char> = Vec::new();
        let n = k.len();
        let mut i: usize = 0;
        while i < n
            invariant
                i <= n <= k@.len(),
                r@ =~= k@.take(i as int),
            decreases n - i,
        {
            r.push(k[i]);
            proof {
                assert(r@ =~= k@.take(i as int + 1));
            }
            i = i + 1;
        }
        proof {
            assert(r@ =~= k@);
        }
        r
    } else {
        let mut r: Vec<char> = Vec::new();
        r.push('"');
        let mut e = escape_chars(k);
        r.append(&mut e);
        r.push('"');
        proof {
            assert(r@ =~= seq!['"'] + escape_spec(k@) + seq!['"']);
        }
        r
    }
}

/// Horizontal whitespace inside a line.
pub open spec fn is_blank(c: char) -> bool {
    c == ' ' || c == '\t'
}

pub open spec fn trim_start_spec(s: Seq<char>) -> Seq<char>
    decreases s,
{
    if s.len() > 0 && is_blank(s[0]) {
        trim_start_spec(s.skip(1))
    } else {
        s
    }
}

pub open spec fn trim_end_spec(s: Seq<char>) -> Seq<char>
    decreases s,
{
    if s.len() > 0 && is_blank(s.last()) {
        trim_end_spec(s.drop_last())
    } else {
        s
    }
}

/// A token with surrounding spaces and tabs removed.
pub open spec fn trim_spec(s: Seq<char>) -> Seq<char> {
    trim_end_spec(trim_start_spec(s))
}

/// Trims surrounding spaces and tabs.
#[verifier::loop_isolation(false)]
pub fn trim_chars(s: &Vec<char>) -> (r: Vec<char>)
    ensures
        r@ == trim_spec(s@),
{
    let n = s.len();
    let mut a: usize = 0;
    proof {
        assert(s@.skip(0) =~= s@);
    }
    while a < n && (s[a] == ' ' || s[a] == '\t')
        invariant
            a <= n,
            trim_start_spec(s@) == trim_start_spec(s@.skip(a as int)),
        decreases n - a,
    {
        proof {
            assert(s@.skip(a as int)[0] == s@[a as int]);
            assert(s@.skip(a as int).skip(1) =~= s@.skip(a as int + 1));
        }
        a = a + 1;
    }
    proof {
        if a < n {
            assert(trim_start_spec(s@.skip(a as int)) == s@.skip(a as int)) by {
                assert(s@.skip(a as int)[0] == s@[a as int]);
            }
        } else {
            assert(s@.skip(a as int) =~= Seq::<char>::empty());
        }
    }
    let ghost t1 = trim_start_spec(s@);
    let mut b: usize = n;
    while b > a && (s[b - 1] == ' ' || s[b - 1] == '\t')
        invariant
            a <= b <= n,
            t1 == s@.skip(a as int),
            trim_end_spec(t1) == trim_end_spec(s@.subrange(a as int, b as int)),
        decreases b,
    {
        proof {
            let cur = s@.subrange(a as int, b as int);
            assert(cur.last() == s@[b - 1]);
            assert(cur.drop_last() =~= s@.subrange(a as int, b as int - 1));
        }
        b = b - 1;
    }
    proof {
        let cur = s@.subrange(a as int, b as int);
        if b > a {
            assert(cur.last() == s@[b - 1]);
            assert(trim_end_spec(cur) == cur);
        } else {
            assert(cur =~= Seq::<char>::empty());
        }
    }
    let mut r: Vec<char> = Vec::new();
    let mut i = a;
    while i < b
        invariant
            a <= i <= b <= n == s@.len(),
            r@ =~= s@.subrange(a as int, i as int),
        decreases b - i,
    {
        r.push(s[i]);
        proof {
            assert(r@ =~= s@.subrange(a as int, i as int + 1));
        }
        i = i + 1;
    }
    proof {
        assert(r@ =~= s@.subrange(a as int, b as int));
    }
    r
}

/// The scalar a value token denotes: the empty string for an empty token, a
/// quoted token unescapes to a string, `true`/`false`/`null` are the
/// booleans and null, numeric tokens are numbers, and anything else is the
/// token itself, verbatim. `None` marks a malformed quoted token.
pub open spec fn parse_scalar_spec(s: Seq<char>) -> Option<SpecValue> {
    let t = trim_spec(s);
    if t.len() == 0 {
        Some(SpecValue::Str(Seq::empty()))
    } else if t.len() >= 2 && t[0] == '"' && t.last() == '"' {
        match unescape_spec(t.subrange(1, t.len() as int - 1)) {
            None => None,
            Some(u) => Some(SpecValue::Str(u)),
        }
    } else if t == true_chars() {
        Some(SpecValue::Bool(true))
    } else if t == false_chars() {
        Some(SpecValue::Bool(false))
    } else if t == null_chars() {
        Some(SpecValue::Null)
    } else {
        match number_token_val(t) {
            Some(v) => Some(v),
            None => Some(SpecValue::Str(t)),
        }
    }
}

/// Parses a scalar token.
pub fn parse_scalar(s: &Vec<char>) -> (r: Result<Value, ToonError>)
    ensures
        match parse_scalar_spec(s@) {
            Some(v) => r is Ok && r.unwrap()@ == v && spec_value_wf(v),
            None => r is Err && r.unwrap_err() is DecodingError,
        },
{
    let t = trim_chars(s);
    let n = t.len();
    if n == 0 {
        let empty = String::new();
        proof {
            assert(empty@ =~= Seq::<char>::empty());
        }
        return Ok(Value::Str(empty));
    }
    if n >= 2 && t[0] == '"' && t[n - 1] == '"' {
        let mut inner: Vec<char> = Vec::new();
        let mut i: usize = 1;
        while i < n - 1
            invariant
                1 <= i <= n - 1,
                n == t@.len(),
                inner@ =~= t@.subrange(1, i as int),
            decreases n - i,
        {
            inner.push(t[i]);
            proof {
                assert(inner@ =~= t@.subrange(1, i as int + 1));
            }
            i = i + 1;
        }
        proof {
            assert(inner@ =~= t@.subrange(1, n as int - 1));
        }
        let u = unescape_chars(&inner)?;
        let out = crate::chars::chars_to_string(&u);
        return Ok(Value::Str(out));
    }
    if n == 4 && t[0] == 't' && t[1] == 'r' && t[2] == 'u' && t[3] == 'e' {
        proof {
            assert(t@ =~= true_chars());
        }
        return Ok(Value::Bool(true));
    }
    if n == 5 && t[0] == 'f' && t[1] == 'a' && t[2] == 'l' && t[3] == 's' && t[4] == 'e' {
        proof {
            assert(t@ =~= false_chars());
        }
        return Ok(Value::Bool(false));
    }
    if n == 4 && t[0] == 'n' && t[1] == 'u' && t[2] == 'l' && t[3] == 'l' {
        proof {
            assert(t@ =~= null_chars());
        }
        return Ok(Value::Null);
    }
    proof {
        assert(t@ != true_chars() && t@ != false_chars() && t@ != null_chars()) by {
            if t@ == true_chars() || t@ == false_chars() || t@ == null_chars() {
                assert(false);
            }
        }
    }
    match parse_number(&t) {
        Some(v) => Ok(v),
        None => {
            let out = crate::chars::chars_to_string(&t);
            Ok(Value::Str(out))
        },
    }
}

/// Unescaping inverts escaping: every string survives an escape round trip
/// unchanged.
pub proof fn lemma_escape_roundtrip(s: Seq<char>)
    ensures
        unescape_spec(escape_spec(s)) == Some(s),
    decreases s,
{
    if s.len() == 0 {
        assert(escape_spec(s) =~= Seq::<char>::empty());
    } else {
        lemma_escape_roundtrip(s.skip(1));
        let c = s[0];
        let e = escape_spec(s);
        assert(e == esc_char(c) + escape_spec(s.skip(1)));
        if c == '\\' || c == '"' || c == '\n' || c == '\r' || c == '\t' {
            assert(e[0] == '\\');
            assert(e.len() >= 2);
            assert(unesc_char(e[1]) == Some(c));
            assert(e.skip(2) =~= escape_spec(s.skip(1)));
            assert(unescape_spec(e) == Some(seq![c] + s.skip(1)));
        } else {
            assert(e[0] == c && c != '\\');
            assert(e.skip(1) =~= escape_spec(s.skip(1)));
            assert(unescape_spec(e) == Some(seq![c] + s.skip(1)));
        }
        assert(seq![c] + s.skip(1) =~= s);
    }
}

/// A string that does not need quoting stands bare and parses back to
/// itself, verbatim: quoting is never necessary where the predicate says so.
pub proof fn lemma_unquoted_roundtrip(s: Seq<char>, d: char)
    requires
        !needs_quoting_spec(s, d),
    ensures
        parse_scalar_spec(s) == Some(SpecValue::Str(s)),
{
    assert(s.len() > 0);
    assert(forall|i: int| 0 <= i < s.len() ==> !bad_char(#[trigger] s[i], d));
    assert(is_structural('\t'));
    assert(!is_blank(s[0]));
    assert(!is_blank(s.last()));
    assert(trim_start_spec(s) == s);
    assert(trim_end_spec(s) == s);
    let t = trim_spec(s);
    assert(t == s);
    assert(t[0] != '"');
    assert(number_token_val(t) is None);
}

/// A quoted-when-needed token always parses back to the original string:
/// together with `lemma_unquoted_roundtrip`, quoting is exactly sufficient.
pub proof fn lemma_quoted_roundtrip(s: Seq<char>, d: char)
    ensures
        parse_scalar_spec(quote_spec(s, d)) == Some(SpecValue::Str(s)),
{
    if needs_quoting_spec(s, d) {
        let q = seq!['"'] + escape_spec(s) + seq!['"'];
        assert(q[0] == '"');
        assert(q.last() == '"');
        assert(!is_blank(q[0]) && !is_blank(q.last()));
        assert(trim_start_spec(q) == q);
        assert(trim_end_spec(q) == q);
        assert(trim_spec(q) == q);
        assert(q.len() >= 2);
        assert(q.subrange(1, q.len() as int - 1) =~= escape_spec(s));
        lemma_escape_roundtrip(s);
    } else {
        lemma_unquoted_roundtrip(s, d);
    }
}

} // verus!

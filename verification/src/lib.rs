//! A bidirectional codec between a structured value model (null, booleans,
//! numbers, strings, ordered arrays, ordered key-value maps) and a compact,
//! indentation-based text notation. Uniform arrays of flat records are laid
//! out as tables, arrays of scalars inline, and everything else line by line,
//! with `[N]` length markers and `{field,...}` headers making array shape
//! self-describing.

use vstd::prelude::*;
use crate::value::Value;

pub mod chars;
pub mod decode;
pub mod encode;
pub mod lexical;
pub mod number;
pub mod value;

verus! {

/// The error taxonomy shared by both directions of the codec.
#[derive(Debug)]
pub enum ToonError {
    /// A value shape that cannot be rendered under the current options.
    EncodingError(String),
    /// Malformed escapes or structurally invalid input text.
    DecodingError(String),
    /// The configured delimiter is not one of the supported characters.
    InvalidDelimiter(String),
    /// Caller-side data that cannot be mapped onto the value model.
    ConversionError(String),
}

/// The detail message an error carries.
pub open spec fn spec_err_message(e: ToonError) -> Seq<char> {
    match e {
        ToonError::EncodingError(m) => m@,
        ToonError::DecodingError(m) => m@,
        ToonError::InvalidDelimiter(m) => m@,
        ToonError::ConversionError(m) => m@,
    }
}

/// Options of the encoder: the delimiter (comma, tab or pipe), the spaces
/// per nesting level, whether `[N]` length markers carry the count, and the
/// reserved strictness switch.
pub struct EncodeOptions {
    pub delimiter: String,
    pub indent: usize,
    pub use_length_markers: bool,
    pub strict: bool,
}

/// Options of the decoder: whether structural irregularities are errors,
/// and the delimiter the text was encoded with.
pub struct DecodeOptions {
    pub strict: bool,
    pub delimiter: String,
}

/// The delimiter character a configured delimiter string denotes, if it is
/// one of the three the notation supports.
pub open spec fn delim_char_spec(s: Seq<char>) -> Option<char> {
    if s == seq![','] {
        Some(',')
    } else if s == seq!['\t'] {
        Some('\t')
    } else if s == seq!['|'] {
        Some('|')
    } else {
        None
    }
}

/// Resolves a configured delimiter string to its character.
fn delim_char(s: &String) -> (r: Option<char>)
    ensures
        r == delim_char_spec(s@),
{
    let cs = crate::chars::str_to_chars(s.as_str());
    if cs.len() == 1 && (cs[0] == ',' || cs[0] == '\t' || cs[0] == '|') {
        proof {
            assert(s@ =~= seq![cs@[0]]);
        }
        Some(cs[0])
    } else {
        proof {
            if s@ == seq![','] || s@ == seq!['\t'] || s@ == seq!['|'] {
                assert(false);
            }
        }
        None
    }
}

impl EncodeOptions {
    /// The default options: comma delimiter, two-space indentation, length
    /// markers on, strict.
    pub fn new() -> (r: EncodeOptions)
        ensures
            r.delimiter@ == seq![','],
            r.indent == 2,
            r.use_length_markers == true,
            r.strict == true,
    {
        let delimiter = String::from_str(",");
        proof {
            reveal_strlit(",");
        }
        EncodeOptions { delimiter, indent: 2, use_length_markers: true, strict: true }
    }
}

impl Default for EncodeOptions {
    fn default() -> (r: EncodeOptions)
        ensures
            r.delimiter@ == seq![','],
            r.indent == 2,
            r.use_length_markers == true,
            r.strict == true,
    {
        EncodeOptions::new()
    }
}

impl DecodeOptions {
    /// The default options: strict, comma delimiter.
    pub fn new() -> (r: DecodeOptions)
        ensures
            r.strict == true,
            r.delimiter@ == seq![','],
    {
        let delimiter = String::from_str(",");
        proof {
            reveal_strlit(",");
        }
        DecodeOptions { strict: true, delimiter }
    }
}

impl Default for DecodeOptions {
    fn default() -> (r: DecodeOptions)
        ensures
            r.strict == true,
            r.delimiter@ == seq![','],
    {
        DecodeOptions::new()
    }
}

/// Encodes a value into the notation: the rendered text for every
/// well-formed value, or `InvalidDelimiter` when the configured delimiter is
/// not one of the three supported characters.
pub fn encode(value: &Value, options: &EncodeOptions) -> (r: Result<String, ToonError>)
    requires
        crate::value::spec_value_wf(value@),
    ensures
        match delim_char_spec(options.delimiter@) {
            Some(d) => r is Ok && r.unwrap()@ == crate::encode::enc_doc(
                value@,
                d,
                options.indent as nat,
                options.use_length_markers,
            ),
            None => r is Err && r.unwrap_err() is InvalidDelimiter,
        },
{
    match delim_char(&options.delimiter) {
        Some(d) => {
            let out = crate::encode::enc_doc_exec(value, d, options.indent, options.use_length_markers);
            Ok(crate::chars::chars_to_string(&out))
        },
        None => Err(ToonError::InvalidDelimiter(options.delimiter.clone())),
    }
}

/// Decodes text of the notation back into a value: always an object, with
/// every decoded entry well-formed; `DecodingError` on malformed escapes or,
/// in strict mode, on structurally invalid input; `InvalidDelimiter` when
/// the configured delimiter is unsupported.
pub fn decode(toon_str: &str, options: &DecodeOptions) -> (r: Result<Value, ToonError>)
    ensures
        match delim_char_spec(options.delimiter@) {
            Some(d) => match crate::decode::decode_spec(toon_str@, options.strict, d) {
                Some(v) => r is Ok && r.unwrap()@ == v && crate::value::spec_value_wf(v)
                    && v is Obj,
                None => r is Err && r.unwrap_err() is DecodingError,
            },
            None => r is Err && r.unwrap_err() is InvalidDelimiter,
        },
{
    match delim_char(&options.delimiter) {
        Some(d) => {
            let cs = crate::chars::str_to_chars(toon_str);
            crate::decode::decode_chars(&cs, options.strict, d)
        },
        None => Err(ToonError::InvalidDelimiter(options.delimiter.clone())),
    }
}

} // verus!

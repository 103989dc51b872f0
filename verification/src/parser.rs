use vstd::prelude::*;
use crate::json_object::JSONObject;
use crate::json_object::JsonVal;
use crate::json_object::model_pairs;
use crate::json_object::model_elems;

verus! {

// ---------------------------------------------------------------------------
// Errors
// ---------------------------------------------------------------------------

/// The abstract kind of a parse failure, with the offending text where the
/// failure has one.
pub enum ErrKind {
    /// No characters (beyond whitespace) where a value was expected.
    EmptyInput,
    /// A value began with a character no syntactic category accepts; carries
    /// that character and up to 250 characters of context starting at it.
    UnrecognizedSymbol(char, Seq<char>),
    /// A run of lowercase letters that is not `true`, `false` or `null`.
    MalformedKeyword(Seq<char>),
    /// A digits-only numeric literal that does not fit a 64-bit signed integer.
    MalformedNumber(Seq<char>),
    /// The input ended inside a string literal.
    UnterminatedString,
    /// The input ended right after a backslash.
    UnfinishedEscape,
    /// The input ended inside the four digits of a `\u` escape.
    UnfinishedUnicodeEscape,
    /// A `\u` escape whose four characters are not hexadecimal digits, or do
    /// not name a Unicode scalar value.
    InvalidUnicodeEscape(Seq<char>),
    /// The input ended inside an array.
    UnclosedArray,
    /// The input ended inside an object, where a key or `}` was expected.
    UnclosedObject,
    /// The input ended where the `:` after a key was expected.
    InputEndedExpectingColon,
    /// Some other character stood where the `:` after a key was expected.
    MissingColon(char),
    /// The input ended after a pair, where `,` or `}` was expected.
    UnclosedObjectField,
    /// Some other character stood after a pair, where `,` or `}` was expected.
    UnexpectedSymbol(char),
}

/// A parse failure, ready for display; its kind and payloads are pinned by
/// [`ParseError::model`].
#[derive(Debug, PartialEq)]
pub enum ParseError {
    EmptyInput,
    UnrecognizedSymbol { found: char, excerpt: String },
    MalformedKeyword { token: String },
    MalformedNumber { token: String },
    UnterminatedString,
    UnfinishedEscape,
    UnfinishedUnicodeEscape,
    InvalidUnicodeEscape { digits: String },
    UnclosedArray,
    UnclosedObject,
    InputEndedExpectingColon,
    MissingColon { found: char },
    UnclosedObjectField,
    UnexpectedSymbol { found: char },
}

impl ParseError {
    /// The abstract kind this error stands for.
    pub open spec fn model(&self) -> ErrKind {
        match self {
            ParseError::EmptyInput => ErrKind::EmptyInput,
            ParseError::UnrecognizedSymbol { found, excerpt } => ErrKind::UnrecognizedSymbol(
                *found,
                excerpt@,
            ),
            ParseError::MalformedKeyword { token } => ErrKind::MalformedKeyword(token@),
            ParseError::MalformedNumber { token } => ErrKind::MalformedNumber(token@),
            ParseError::UnterminatedString => ErrKind::UnterminatedString,
            ParseError::UnfinishedEscape => ErrKind::UnfinishedEscape,
            ParseError::UnfinishedUnicodeEscape => ErrKind::UnfinishedUnicodeEscape,
            ParseError::InvalidUnicodeEscape { digits } => ErrKind::InvalidUnicodeEscape(digits@),
            ParseError::UnclosedArray => ErrKind::UnclosedArray,
            ParseError::UnclosedObject => ErrKind::UnclosedObject,
            ParseError::InputEndedExpectingColon => ErrKind::InputEndedExpectingColon,
            ParseError::MissingColon { found } => ErrKind::MissingColon(*found),
            ParseError::UnclosedObjectField => ErrKind::UnclosedObjectField,
            ParseError::UnexpectedSymbol { found } => ErrKind::UnexpectedSymbol(*found),
        }
    }

    /// The text of the message that [`ParseError::message`] produces.
    pub open spec fn msg_spec(&self) -> Seq<char> {
        match self {
            ParseError::EmptyInput => "No chars to parse"@,
            ParseError::UnrecognizedSymbol { found, excerpt } => "Unrecognized symbol "@ + seq![
                *found,
            ] + " at beginning of element, followed by: "@ + excerpt@,
            ParseError::MalformedKeyword { token } => "Unrecognized keyword "@ + token@,
            ParseError::MalformedNumber { token } => "Failed to parse number "@ + token@
                + " as i64"@,
            ParseError::UnterminatedString => "Input ended without closing string"@,
            ParseError::UnfinishedEscape => "Input ended while parsing string escape character"@,
            ParseError::UnfinishedUnicodeEscape => "Ran out of characters while parsing Unicode sequence"@,
            ParseError::InvalidUnicodeEscape { digits } => "Could not parse Unicode sequence "@
                + digits@,
            ParseError::UnclosedArray => "Input ended without closing array"@,
            ParseError::UnclosedObject => "Input ended without closing object"@,
            ParseError::InputEndedExpectingColon => "Input ended while expecting ':'"@,
            ParseError::MissingColon { found } => "Missing : between key and value (found "@
                + seq![*found] + ")"@,
            ParseError::UnclosedObjectField => "Input ended without closing object field"@,
            ParseError::UnexpectedSymbol { found } => "Unexpected symbol "@ + seq![*found]
                + " while parsing object"@,
        }
    }

    /// A descriptive message for display, naming what was expected and what
    /// stood in its place.
    pub fn message(&self) -> (r: String)
        ensures
            r@ == self.msg_spec(),
    {
        let mut out: Vec<char> = Vec::new();
        match self {
            ParseError::EmptyInput => {
                crate::text::append_str(&mut out, "No chars to parse");
            },
            ParseError::UnrecognizedSymbol { found, excerpt } => {
                crate::text::append_str(&mut out, "Unrecognized symbol ");
                crate::text::push_char(&mut out, *found);
                crate::text::append_str(&mut out, " at beginning of element, followed by: ");
                crate::text::append_str(&mut out, excerpt.as_str());
            },
            ParseError::MalformedKeyword { token } => {
                crate::text::append_str(&mut out, "Unrecognized keyword ");
                crate::text::append_str(&mut out, token.as_str());
            },
            ParseError::MalformedNumber { token } => {
                crate::text::append_str(&mut out, "Failed to parse number ");
                crate::text::append_str(&mut out, token.as_str());
                crate::text::append_str(&mut out, " as i64");
            },
            ParseError::UnterminatedString => {
                crate::text::append_str(&mut out, "Input ended without closing string");
            },
            ParseError::UnfinishedEscape => {
                crate::text::append_str(
                    &mut out,
                    "Input ended while parsing string escape character",
                );
            },
            ParseError::UnfinishedUnicodeEscape => {
                crate::text::append_str(
                    &mut out,
                    "Ran out of characters while parsing Unicode sequence",
                );
            },
            ParseError::InvalidUnicodeEscape { digits } => {
                crate::text::append_str(&mut out, "Could not parse Unicode sequence ");
                crate::text::append_str(&mut out, digits.as_str());
            },
            ParseError::UnclosedArray => {
                crate::text::append_str(&mut out, "Input ended without closing array");
            },
            ParseError::UnclosedObject => {
                crate::text::append_str(&mut out, "Input ended without closing object");
            },
            ParseError::InputEndedExpectingColon => {
                crate::text::append_str(&mut out, "Input ended while expecting ':'");
            },
            ParseError::MissingColon { found } => {
                crate::text::append_str(&mut out, "Missing : between key and value (found ");
                crate::text::push_char(&mut out, *found);
                crate::text::append_str(&mut out, ")");
            },
            ParseError::UnclosedObjectField => {
                crate::text::append_str(&mut out, "Input ended without closing object field");
            },
            ParseError::UnexpectedSymbol { found } => {
                crate::text::append_str(&mut out, "Unexpected symbol ");
                crate::text::push_char(&mut out, *found);
                crate::text::append_str(&mut out, " while parsing object");
            },
        }
        crate::text::chars_to_string(&out)
    }
}

// ---------------------------------------------------------------------------
// Character classes
// ---------------------------------------------------------------------------

/// ASCII whitespace: the characters trimmed between tokens.
pub open spec fn is_ws(c: char) -> bool {
    c == ' ' || c == '\t' || c == '\n' || c == '\r' || c == '\x0c'
}

/// A decimal digit, `'0'` to `'9'`.
pub open spec fn is_digit(c: char) -> bool {
    48 <= c as u32 && c as u32 <= 57
}

/// A lowercase ASCII letter, `'a'` to `'z'`: the characters a keyword is made of.
pub open spec fn is_lower(c: char) -> bool {
    97 <= c as u32 && c as u32 <= 122
}

fn is_ws_char(c: char) -> (b: bool)
    ensures
        b == is_ws(c),
{
    c == ' ' || c == '\t' || c == '\n' || c == '\r' || c == '\x0c'
}

fn is_digit_char(c: char) -> (b: bool)
    ensures
        b == is_digit(c),
{
    let u = c as u32;
    48 <= u && u <= 57
}

fn is_lower_char(c: char) -> (b: bool)
    ensures
        b == is_lower(c),
{
    let u = c as u32;
    97 <= u && u <= 122
}

// ---------------------------------------------------------------------------
// Whitespace
// ---------------------------------------------------------------------------

/// The first position at or after `i` that does not hold whitespace (or the
/// end of the text).
pub open spec fn skip_ws(s: Seq<char>, i: int) -> int
    decreases s.len() - i,
{
    if 0 <= i < s.len() && is_ws(s[i]) {
        skip_ws(s, i + 1)
    } else {
        i
    }
}

/// Advances past any whitespace starting at position `i`.
pub fn consume_whitespace(text: &Vec<char>, i: usize) -> (j: usize)
    requires
        i <= text@.len(),
    ensures
        j as int == skip_ws(text@, i as int),
        i <= j <= text@.len(),
        j < text@.len() ==> !is_ws(text@[j as int]),
    decreases text@.len() - i,
{
    if i < text.len() && is_ws_char(text[i]) {
        consume_whitespace(text, i + 1)
    } else {
        i
    }
}

// ---------------------------------------------------------------------------
// The specification parser
//
// One function per syntactic category, each taking the whole text and the
// position its token starts at, and returning the parsed value together with
// the position just past it, or the first failure.
// ---------------------------------------------------------------------------

/// End of the numeric token that starts at `i`: the scan accepts decimal
/// digits and at most one decimal point, and reports whether it saw one.
pub open spec fn num_scan(s: Seq<char>, i: int, seen_dot: bool) -> (int, bool)
    decreases s.len() - i,
{
    if 0 <= i < s.len() {
        if is_digit(s[i]) {
            num_scan(s, i + 1, seen_dot)
        } else if s[i] == '.' && !seen_dot {
            num_scan(s, i + 1, true)
        } else {
            (i, seen_dot)
        }
    } else {
        (i, seen_dot)
    }
}

/// The numeric value of a decimal digit.
pub open spec fn digit_val(c: char) -> nat {
    (c as u32 - 48) as nat
}

/// The numeric value of a run of decimal digits.
pub open spec fn dec_val(s: Seq<char>) -> nat
    decreases s,
{
    if s.len() == 0 {
        0
    } else {
        dec_val(s.drop_last()) * 10 + digit_val(s.last())
    }
}

/// A number: a decimal point anywhere in the token selects the `Float`
/// variant, which keeps the token itself; a digits-only token becomes an
/// `Integer`, and fails exactly when its value exceeds `i64::MAX` (the scan
/// admits no sign).
pub open spec fn sp_number(s: Seq<char>, i: int) -> Result<(JsonVal, int), ErrKind> {
    let (j, is_float) = num_scan(s, i, false);
    let token = s.subrange(i, j);
    if is_float {
        Ok((JsonVal::Float(token), j))
    } else if dec_val(token) > i64::MAX as nat {
        Err(ErrKind::MalformedNumber(token))
    } else {
        Ok((JsonVal::Integer(dec_val(token) as i64), j))
    }
}

/// End of the keyword token that starts at `i`: a run of lowercase letters.
pub open spec fn kw_end(s: Seq<char>, i: int) -> int
    decreases s.len() - i,
{
    if 0 <= i < s.len() && is_lower(s[i]) {
        kw_end(s, i + 1)
    } else {
        i
    }
}

/// A keyword: the token must be exactly `true`, `false` or `null`.
pub open spec fn sp_keyword(s: Seq<char>, i: int) -> Result<(JsonVal, int), ErrKind> {
    let token = s.subrange(i, kw_end(s, i));
    if token == "true"@ {
        Ok((JsonVal::Bool(true), kw_end(s, i)))
    } else if token == "false"@ {
        Ok((JsonVal::Bool(false), kw_end(s, i)))
    } else if token == "null"@ {
        Ok((JsonVal::Null, kw_end(s, i)))
    } else {
        Err(ErrKind::MalformedKeyword(token))
    }
}

/// A hexadecimal digit (either case).
pub open spec fn is_hex(c: char) -> bool {
    is_digit(c) || (97 <= c as u32 && c as u32 <= 102) || (65 <= c as u32 && c as u32 <= 70)
}

/// The numeric value of a hexadecimal digit.
pub open spec fn hex_digit_val(c: char) -> nat {
    if is_digit(c) {
        (c as u32 - 48) as nat
    } else if 97 <= c as u32 {
        (c as u32 - 87) as nat
    } else {
        (c as u32 - 55) as nat
    }
}

/// Whether the four characters at `i` are all hexadecimal digits.
pub open spec fn hex4_ok(s: Seq<char>, i: int) -> bool {
    is_hex(s[i]) && is_hex(s[i + 1]) && is_hex(s[i + 2]) && is_hex(s[i + 3])
}

/// The value of the four hexadecimal digits at `i`.
pub open spec fn hex4_val(s: Seq<char>, i: int) -> nat {
    ((hex_digit_val(s[i]) * 16 + hex_digit_val(s[i + 1])) * 16 + hex_digit_val(s[i + 2])) * 16
        + hex_digit_val(s[i + 3])
}

/// A Unicode scalar value: what a character can hold.
pub open spec fn is_scalar(v: nat) -> bool {
    v < 0xD800 || (0xE000 <= v && v <= 0x10FFFF)
}

/// The character with scalar value `v`.
pub open spec fn char_of(v: nat) -> char {
    (v as u32) as char
}

/// The decoding of the single-character escape `\e`: tab, newline and
/// carriage return come from their letters, and every other character stands
/// for itself (so `\"` and `\\` decode to `"` and `\`, and an unknown escape
/// passes its character through).
pub open spec fn esc_char(e: char) -> char {
    if e == 't' {
        '\t'
    } else if e == 'n' {
        '\n'
    } else if e == 'r' {
        '\r'
    } else {
        e
    }
}

/// The body of a string literal, from position `i` (just past the opening
/// quote), with `acc` the characters decoded so far.  Ends at the first
/// unescaped `"`; a `\u` escape takes exactly four hexadecimal digits and
/// must name a scalar value.
pub open spec fn sp_str_body(s: Seq<char>, i: int, acc: Seq<char>) -> Result<
    (Seq<char>, int),
    ErrKind,
>
    decreases s.len() - i,
{
    if i < 0 || i >= s.len() {
        Err(ErrKind::UnterminatedString)
    } else if s[i] == '"' {
        Ok((acc, i + 1))
    } else if s[i] == '\\' {
        if i + 1 >= s.len() {
            Err(ErrKind::UnfinishedEscape)
        } else if s[i + 1] == 'u' {
            if i + 6 > s.len() {
                Err(ErrKind::UnfinishedUnicodeEscape)
            } else if !hex4_ok(s, i + 2) {
                Err(ErrKind::InvalidUnicodeEscape(s.subrange(i + 2, i + 6)))
            } else if !is_scalar(hex4_val(s, i + 2)) {
                Err(ErrKind::InvalidUnicodeEscape(s.subrange(i + 2, i + 6)))
            } else {
                sp_str_body(s, i + 6, acc.push(char_of(hex4_val(s, i + 2))))
            }
        } else {
            sp_str_body(s, i + 2, acc.push(esc_char(s[i + 1])))
        }
    } else {
        sp_str_body(s, i + 1, acc.push(s[i]))
    }
}

/// The position just past a value that was parsed from position `i`.  A
/// sub-parser always consumes at least one character and never passes the end
/// of the text; `adv` makes that bound available to the termination checker,
/// and is the identity whenever `i < j <= s.len()`.
pub open spec fn adv(s: Seq<char>, i: int, j: int) -> int {
    if i < j <= s.len() {
        j
    } else {
        i + 1
    }
}

/// One value, parsed from position `i`: whitespace is consumed first, and the
/// first character selects the syntactic category.
pub open spec fn sp_any(s: Seq<char>, i: int) -> Result<(JsonVal, int), ErrKind>
    decreases s.len() - i, 2int,
{
    if i < 0 || i >= s.len() {
        Err(ErrKind::EmptyInput)
    } else if is_ws(s[i]) {
        sp_any(s, i + 1)
    } else if is_digit(s[i]) {
        sp_number(s, i)
    } else if s[i] == '{' {
        sp_obj_items(s, i + 1, Seq::empty())
    } else if s[i] == '"' {
        match sp_str_body(s, i + 1, Seq::empty()) {
            Ok((cs, j)) => Ok((JsonVal::String(cs), j)),
            Err(e) => Err(e),
        }
    } else if s[i] == '[' {
        sp_arr_items(s, i + 1, Seq::empty())
    } else if is_lower(s[i]) {
        sp_keyword(s, i)
    } else {
        Err(
            ErrKind::UnrecognizedSymbol(
                s[i],
                s.subrange(i, if i + 250 <= s.len() { i + 250 } else { s.len() as int }),
            ),
        )
    }
}

/// The pairs of an object, from position `i` (just past `{` or a `,`), with
/// `acc` the pairs gathered so far.  A `}` here closes the object, so an
/// empty object and a trailing comma are both accepted; anything else must be
/// a key (a full value, not restricted to a string).
pub open spec fn sp_obj_items(s: Seq<char>, i: int, acc: Seq<(JsonVal, JsonVal)>) -> Result<
    (JsonVal, int),
    ErrKind,
>
    decreases s.len() - i, 3int,
{
    if i < 0 || i >= s.len() {
        Err(ErrKind::UnclosedObject)
    } else if is_ws(s[i]) {
        sp_obj_items(s, i + 1, acc)
    } else if s[i] == '}' {
        Ok((JsonVal::Object(acc), i + 1))
    } else {
        match sp_any(s, i) {
            Ok((k, j)) => sp_obj_colon(s, adv(s, i, j), acc, k),
            Err(e) => Err(e),
        }
    }
}

/// The `:` between a key and its value, from position `i` (just past the key).
pub open spec fn sp_obj_colon(
    s: Seq<char>,
    i: int,
    acc: Seq<(JsonVal, JsonVal)>,
    k: JsonVal,
) -> Result<(JsonVal, int), ErrKind>
    decreases s.len() - i, 3int,
{
    if i < 0 || i >= s.len() {
        Err(ErrKind::InputEndedExpectingColon)
    } else if is_ws(s[i]) {
        sp_obj_colon(s, i + 1, acc, k)
    } else if s[i] == ':' {
        sp_obj_value(s, i + 1, acc, k)
    } else {
        Err(ErrKind::MissingColon(s[i]))
    }
}

/// The value of a pair, from position `i` (just past the `:`).
pub open spec fn sp_obj_value(
    s: Seq<char>,
    i: int,
    acc: Seq<(JsonVal, JsonVal)>,
    k: JsonVal,
) -> Result<(JsonVal, int), ErrKind>
    decreases s.len() - i, 4int,
{
    if i >= s.len() {
        Err(ErrKind::EmptyInput)
    } else {
        match sp_any(s, i) {
            Ok((v, j)) => sp_obj_after(s, adv(s, i, j), acc.push((k, v))),
            Err(e) => Err(e),
        }
    }
}

/// After a pair: a `,` continues the object, a `}` closes it.
pub open spec fn sp_obj_after(s: Seq<char>, i: int, acc: Seq<(JsonVal, JsonVal)>) -> Result<
    (JsonVal, int),
    ErrKind,
>
    decreases s.len() - i, 3int,
{
    if i < 0 || i >= s.len() {
        Err(ErrKind::UnclosedObjectField)
    } else if is_ws(s[i]) {
        sp_obj_after(s, i + 1, acc)
    } else if s[i] == ',' {
        sp_obj_items(s, i + 1, acc)
    } else if s[i] == '}' {
        Ok((JsonVal::Object(acc), i + 1))
    } else {
        Err(ErrKind::UnexpectedSymbol(s[i]))
    }
}

/// The elements of an array, from position `i` (just past `[`), with `acc`
/// the elements gathered so far.  A `,` or `]` in value position is consumed
/// as a delimiter, so a stray comma is skipped rather than refused.
pub open spec fn sp_arr_items(s: Seq<char>, i: int, acc: Seq<JsonVal>) -> Result<
    (JsonVal, int),
    ErrKind,
>
    decreases s.len() - i, 3int,
{
    if i < 0 || i >= s.len() {
        Err(ErrKind::UnclosedArray)
    } else if is_ws(s[i]) {
        sp_arr_items(s, i + 1, acc)
    } else if s[i] == ',' {
        sp_arr_items(s, i + 1, acc)
    } else if s[i] == ']' {
        Ok((JsonVal::Array(acc), i + 1))
    } else {
        match sp_any(s, i) {
            Ok((v, j)) => sp_arr_items(s, adv(s, i, j), acc.push(v)),
            Err(e) => Err(e),
        }
    }
}

/// The whole parse: exactly one value from the front of the text; trailing
/// content after the value is ignored.
pub open spec fn sp_parse(s: Seq<char>) -> Result<JsonVal, ErrKind> {
    match sp_any(s, 0) {
        Ok((v, j)) => Ok(v),
        Err(e) => Err(e),
    }
}

// ---------------------------------------------------------------------------
// Leading whitespace does not change what a sub-parser sees
// ---------------------------------------------------------------------------

pub proof fn lemma_any_ws(s: Seq<char>, i: int)
    requires
        0 <= i <= s.len(),
    ensures
        sp_any(s, i) == sp_any(s, skip_ws(s, i)),
    decreases s.len() - i,
{
    if i < s.len() && is_ws(s[i]) {
        lemma_any_ws(s, i + 1);
    }
}

pub proof fn lemma_obj_items_ws(s: Seq<char>, i: int, acc: Seq<(JsonVal, JsonVal)>)
    requires
        0 <= i <= s.len(),
    ensures
        sp_obj_items(s, i, acc) == sp_obj_items(s, skip_ws(s, i), acc),
    decreases s.len() - i,
{
    if i < s.len() && is_ws(s[i]) {
        lemma_obj_items_ws(s, i + 1, acc);
    }
}

pub proof fn lemma_obj_colon_ws(s: Seq<char>, i: int, acc: Seq<(JsonVal, JsonVal)>, k: JsonVal)
    requires
        0 <= i <= s.len(),
    ensures
        sp_obj_colon(s, i, acc, k) == sp_obj_colon(s, skip_ws(s, i), acc, k),
    decreases s.len() - i,
{
    if i < s.len() && is_ws(s[i]) {
        lemma_obj_colon_ws(s, i + 1, acc, k);
    }
}

pub proof fn lemma_obj_after_ws(s: Seq<char>, i: int, acc: Seq<(JsonVal, JsonVal)>)
    requires
        0 <= i <= s.len(),
    ensures
        sp_obj_after(s, i, acc) == sp_obj_after(s, skip_ws(s, i), acc),
    decreases s.len() - i,
{
    if i < s.len() && is_ws(s[i]) {
        lemma_obj_after_ws(s, i + 1, acc);
    }
}

pub proof fn lemma_arr_items_ws(s: Seq<char>, i: int, acc: Seq<JsonVal>)
    requires
        0 <= i <= s.len(),
    ensures
        sp_arr_items(s, i, acc) == sp_arr_items(s, skip_ws(s, i), acc),
    decreases s.len() - i,
{
    if i < s.len() && is_ws(s[i]) {
        lemma_arr_items_ws(s, i + 1, acc);
    }
}

// ---------------------------------------------------------------------------
// The executable parser
// ---------------------------------------------------------------------------

/// The executable outcome `r` agrees with the specification outcome `sp` for
/// a token beginning at `i`: same value and same end position on success
/// (which always advances, staying inside the text), same error kind on
/// failure.
pub open spec fn matches_res(
    s: Seq<char>,
    i: int,
    sp: Result<(JsonVal, int), ErrKind>,
    r: Result<(JSONObject, usize), ParseError>,
) -> bool {
    match r {
        Ok((v, j)) => sp == Ok::<(JsonVal, int), ErrKind>((v.model(), j as int)) && i < j
            <= s.len(),
        Err(e) => sp == Err::<(JsonVal, int), ErrKind>(e.model()),
    }
}

fn num_scan_at(text: &Vec<char>, i: usize, seen_dot: bool) -> (r: (usize, bool))
    requires
        i <= text@.len(),
    ensures
        r.0 as int == num_scan(text@, i as int, seen_dot).0,
        r.1 == num_scan(text@, i as int, seen_dot).1,
        i <= r.0 <= text@.len(),
        i < text@.len() && is_digit(text@[i as int]) ==> r.0 > i,
    decreases text@.len() - i,
{
    if i < text.len() {
        let c = text[i];
        if is_digit_char(c) {
            num_scan_at(text, i + 1, seen_dot)
        } else if c == '.' && !seen_dot {
            num_scan_at(text, i + 1, true)
        } else {
            (i, seen_dot)
        }
    } else {
        (i, seen_dot)
    }
}

/// A digits-only scan (no dot seen, none found) passes only digits.
proof fn lemma_num_scan_digits(s: Seq<char>, i: int, seen: bool)
    requires
        0 <= i <= s.len(),
    ensures
        i <= num_scan(s, i, seen).0 <= s.len(),
        seen ==> num_scan(s, i, seen).1,
        !num_scan(s, i, seen).1 ==> forall|k: int|
            i <= k < num_scan(s, i, seen).0 ==> is_digit(#[trigger] s[k]),
    decreases s.len() - i,
{
    if i < s.len() {
        if is_digit(s[i]) {
            lemma_num_scan_digits(s, i + 1, seen);
        } else if s[i] == '.' && !seen {
            lemma_num_scan_digits(s, i + 1, true);
        }
    }
}

/// Appending one digit multiplies the value by ten and adds the digit.
proof fn lemma_dec_val_extend(s: Seq<char>, i: int, k: int)
    requires
        0 <= i <= k < s.len(),
    ensures
        dec_val(s.subrange(i, k + 1)) == dec_val(s.subrange(i, k)) * 10 + digit_val(s[k]),
{
    assert(s.subrange(i, k + 1).drop_last() =~= s.subrange(i, k));
    assert(s.subrange(i, k + 1).last() == s[k]);
}

/// A longer run of digits has a value at least as large.
proof fn lemma_dec_val_mono(s: Seq<char>, i: int, j: int, k: int)
    requires
        0 <= i <= j <= k <= s.len(),
    ensures
        dec_val(s.subrange(i, j)) <= dec_val(s.subrange(i, k)),
    decreases k - j,
{
    if j < k {
        lemma_dec_val_extend(s, i, k - 1);
        lemma_dec_val_mono(s, i, j, k - 1);
    }
}

fn parse_number_at(text: &Vec<char>, i: usize) -> (r: Result<(JSONObject, usize), ParseError>)
    requires
        i < text@.len(),
        is_digit(text@[i as int]),
    ensures
        matches_res(text@, i as int, sp_number(text@, i as int), r),
{
    let ghost s = text@;
    let (end, is_float) = num_scan_at(text, i, false);
    if is_float {
        let token = crate::text::chars_to_string(&crate::text::copy_range(text, i, end));
        Ok((JSONObject::Float { value: token }, end))
    } else {
        proof {
            lemma_num_scan_digits(s, i as int, false);
        }
        let mut acc: u64 = 0;
        let mut k: usize = i;
        while k < end
            invariant
                i <= k <= end <= s.len(),
                s == text@,
                (end as int, false) == num_scan(s, i as int, false),
                forall|m: int| i <= m < end ==> is_digit(#[trigger] s[m]),
                acc as nat == dec_val(s.subrange(i as int, k as int)),
                acc <= i64::MAX as u64,
            decreases end - k,
        {
            let c = text[k];
            let d: u64 = (c as u32 - 48) as u64;
            let limit: u64 = (9223372036854775807u64 - d) / 10;
            proof {
                lemma_dec_val_extend(s, i as int, k as int);
            }
            if acc > limit {
                proof {
                    assert(acc as int * 10 + d as int > i64::MAX as int) by {
                        assert(acc as int >= (i64::MAX as int - d as int) / 10 + 1);
                        assert(((i64::MAX as int - d as int) / 10 + 1) * 10 >= i64::MAX as int
                            - d as int + 1) by (nonlinear_arith);
                        assert(acc as int * 10 >= ((i64::MAX as int - d as int) / 10 + 1) * 10)
                            by (nonlinear_arith)
                            requires
                                acc as int >= (i64::MAX as int - d as int) / 10 + 1,
                        ;
                    };
                    lemma_dec_val_mono(s, i as int, k as int + 1, end as int);
                }
                let token = crate::text::chars_to_string(&crate::text::copy_range(text, i, end));
                return Err(ParseError::MalformedNumber { token });
            }
            proof {
                assert(acc as int * 10 + d as int <= i64::MAX as int) by {
                    assert(acc as int <= (i64::MAX as int - d as int) / 10);
                    assert(((i64::MAX as int - d as int) / 10) * 10 <= i64::MAX as int - d as int)
                        by (nonlinear_arith);
                    assert(acc as int * 10 <= ((i64::MAX as int - d as int) / 10) * 10)
                        by (nonlinear_arith)
                        requires
                            acc as int <= (i64::MAX as int - d as int) / 10,
                    ;
                };
            }
            acc = acc * 10 + d;
            k = k + 1;
        }
        Ok((JSONObject::Integer { value: acc as i64 }, end))
    }
}

fn kw_end_at(text: &Vec<char>, i: usize) -> (j: usize)
    requires
        i <= text@.len(),
    ensures
        j as int == kw_end(text@, i as int),
        i <= j <= text@.len(),
        i < text@.len() && is_lower(text@[i as int]) ==> j > i,
    decreases text@.len() - i,
{
    if i < text.len() && is_lower_char(text[i]) {
        kw_end_at(text, i + 1)
    } else {
        i
    }
}

fn parse_keyword_at(text: &Vec<char>, i: usize) -> (r: Result<(JSONObject, usize), ParseError>)
    requires
        i < text@.len(),
        is_lower(text@[i as int]),
    ensures
        matches_res(text@, i as int, sp_keyword(text@, i as int), r),
{
    let ghost s = text@;
    let j = kw_end_at(text, i);
    proof {
        reveal_strlit("true");
        reveal_strlit("false");
        reveal_strlit("null");
    }
    let n = j - i;
    if n == 4 && text[i] == 't' && text[i + 1] == 'r' && text[i + 2] == 'u' && text[i + 3] == 'e' {
        let v = JSONObject::Bool { value: true };
        proof {
            assert(s.subrange(i as int, j as int) =~= "true"@);
            assert(v.model() == JsonVal::Bool(true));
            assert(sp_keyword(s, i as int) == Ok::<(JsonVal, int), ErrKind>(
                (JsonVal::Bool(true), j as int),
            ));
        }
        Ok((v, j))
    } else if n == 5 && text[i] == 'f' && text[i + 1] == 'a' && text[i + 2] == 'l' && text[i + 3]
        == 's' && text[i + 4] == 'e' {
        let v = JSONObject::Bool { value: false };
        proof {
            reveal_strlit("true");
            reveal_strlit("false");
            assert("true"@.len() == 4);
            assert("false"@.len() == 5);
            assert(s.subrange(i as int, j as int) =~= "false"@);
            assert(s.subrange(i as int, j as int) != "true"@);
            assert(v.model() == JsonVal::Bool(false));
            assert(sp_keyword(s, i as int) == Ok::<(JsonVal, int), ErrKind>(
                (JsonVal::Bool(false), j as int),
            ));
        }
        Ok((v, j))
    } else if n == 4 && text[i] == 'n' && text[i + 1] == 'u' && text[i + 2] == 'l' && text[i + 3]
        == 'l' {
        proof {
            reveal_strlit("true");
            reveal_strlit("false");
            reveal_strlit("null");
            assert(s.subrange(i as int, j as int) =~= "null"@);
            assert("null"@[0] == 'n' && "true"@[0] == 't');
            assert("null"@.len() == 4 && "false"@.len() == 5);
            assert(s.subrange(i as int, j as int) != "true"@);
            assert(s.subrange(i as int, j as int) != "false"@);
            assert(sp_keyword(s, i as int) == Ok::<(JsonVal, int), ErrKind>(
                (JsonVal::Null, j as int),
            ));
        }
        Ok((JSONObject::Null, j))
    } else {
        proof {
            reveal_strlit("true");
            reveal_strlit("false");
            reveal_strlit("null");
            let token = s.subrange(i as int, j as int);
            assert(token.len() == j - i);
            assert(token != "true"@ && token != "false"@ && token != "null"@) by {
                if token == "true"@ {
                    assert(token[0] == s[i as int] && token[1] == s[i as int + 1] && token[2]
                        == s[i as int + 2] && token[3] == s[i as int + 3]);
                }
                if token == "false"@ {
                    assert(token[0] == s[i as int] && token[1] == s[i as int + 1] && token[2]
                        == s[i as int + 2] && token[3] == s[i as int + 3] && token[4]
                        == s[i as int + 4]);
                }
                if token == "null"@ {
                    assert(token[0] == s[i as int] && token[1] == s[i as int + 1] && token[2]
                        == s[i as int + 2] && token[3] == s[i as int + 3]);
                }
            };
        }
        let token = crate::text::chars_to_string(&crate::text::copy_range(text, i, j));
        Err(ParseError::MalformedKeyword { token })
    }
}

fn hex_val_char(c: char) -> (r: Option<u32>)
    ensures
        match r {
            Some(v) => is_hex(c) && v as nat == hex_digit_val(c),
            None => !is_hex(c),
        },
{
    let u = c as u32;
    if 48 <= u && u <= 57 {
        Some(u - 48)
    } else if 97 <= u && u <= 102 {
        Some(u - 87)
    } else if 65 <= u && u <= 70 {
        Some(u - 55)
    } else {
        None
    }
}

fn parse_string_at(text: &Vec<char>, i: usize) -> (r: Result<(JSONObject, usize), ParseError>)
    requires
        i < text@.len(),
        text@[i as int] == '"',
    ensures
        matches_res(
            text@,
            i as int,
            match sp_str_body(text@, i as int + 1, Seq::empty()) {
                Ok((cs, j)) => Ok((JsonVal::String(cs), j)),
                Err(e) => Err(e),
            },
            r,
        ),
{
    let ghost s = text@;
    let n = text.len();
    let mut acc: Vec<char> = Vec::new();
    let mut cur: usize = i + 1;
    loop
        invariant
            i as int + 1 <= cur as int,
            cur <= s.len(),
            s == text@,
            n == s.len(),
            sp_str_body(s, cur as int, acc@) == sp_str_body(s, i as int + 1, Seq::<char>::empty()),
        decreases s.len() - cur,
    {
        if cur >= n {
            return Err(ParseError::UnterminatedString);
        }
        let c = text[cur];
        if c == '"' {
            let value = crate::text::chars_to_string(&acc);
            return Ok((JSONObject::String { value }, cur + 1));
        } else if c == '\\' {
            if cur + 1 >= n {
                return Err(ParseError::UnfinishedEscape);
            }
            let e = text[cur + 1];
            if e == 'u' {
                if n - cur < 6 {
                    return Err(ParseError::UnfinishedUnicodeEscape);
                }
                let d0 = hex_val_char(text[cur + 2]);
                let d1 = hex_val_char(text[cur + 3]);
                let d2 = hex_val_char(text[cur + 4]);
                let d3 = hex_val_char(text[cur + 5]);
                match (d0, d1, d2, d3) {
                    (Some(v0), Some(v1), Some(v2), Some(v3)) => {
                        let v: u32 = ((v0 * 16 + v1) * 16 + v2) * 16 + v3;
                        proof {
                            assert(v as nat == hex4_val(s, cur as int + 2));
                        }
                        match crate::text::char_from_u32(v) {
                            Some(ch) => {
                                proof {
                                    vstd::utf8::char_u32_cast(ch, v);
                                    assert(char_of(v as nat) == ch);
                                }
                                acc.push(ch);
                                cur = cur + 6;
                            },
                            None => {
                                let digits = crate::text::chars_to_string(
                                    &crate::text::copy_range(text, cur + 2, cur + 6),
                                );
                                return Err(ParseError::InvalidUnicodeEscape { digits });
                            },
                        }
                    },
                    _ => {
                        let digits = crate::text::chars_to_string(
                            &crate::text::copy_range(text, cur + 2, cur + 6),
                        );
                        return Err(ParseError::InvalidUnicodeEscape { digits });
                    },
                }
            } else {
                let decoded = if e == 't' {
                    '\t'
                } else if e == 'n' {
                    '\n'
                } else if e == 'r' {
                    '\r'
                } else {
                    e
                };
                acc.push(decoded);
                cur = cur + 2;
            }
        } else {
            acc.push(c);
            cur = cur + 1;
        }
    }
}

fn parse_any_at(text: &Vec<char>, i: usize) -> (r: Result<(JSONObject, usize), ParseError>)
    requires
        i <= text@.len(),
    ensures
        matches_res(text@, i as int, sp_any(text@, i as int), r),
    decreases text@.len() - i, 2int,
{
    let ghost s = text@;
    let j = consume_whitespace(text, i);
    proof {
        lemma_any_ws(s, i as int);
    }
    if j >= text.len() {
        return Err(ParseError::EmptyInput);
    }
    let c = text[j];
    if is_digit_char(c) {
        proof {
            assert(sp_any(s, j as int) == sp_number(s, j as int));
        }
        parse_number_at(text, j)
    } else if c == '{' {
        let children: Vec<(JSONObject, JSONObject)> = Vec::new();
        proof {
            assert(model_pairs(children@) =~= Seq::<(JsonVal, JsonVal)>::empty());
            assert(sp_any(s, j as int) == sp_obj_items(
                s,
                j as int + 1,
                Seq::<(JsonVal, JsonVal)>::empty(),
            ));
        }
        parse_obj_items(text, j + 1, children)
    } else if c == '"' {
        parse_string_at(text, j)
    } else if c == '[' {
        let values: Vec<JSONObject> = Vec::new();
        proof {
            assert(model_elems(values@) =~= Seq::<JsonVal>::empty());
            assert(sp_any(s, j as int) == sp_arr_items(s, j as int + 1, Seq::<JsonVal>::empty()));
        }
        parse_arr_items(text, j + 1, values)
    } else if is_lower_char(c) {
        proof {
            assert(sp_any(s, j as int) == sp_keyword(s, j as int));
        }
        parse_keyword_at(text, j)
    } else {
        let end = if text.len() - j >= 250 {
            j + 250
        } else {
            text.len()
        };
        let excerpt = crate::text::chars_to_string(&crate::text::copy_range(text, j, end));
        Err(ParseError::UnrecognizedSymbol { found: c, excerpt })
    }
}

fn parse_obj_items(text: &Vec<char>, i: usize, children: Vec<(JSONObject, JSONObject)>) -> (r:
    Result<(JSONObject, usize), ParseError>)
    requires
        i <= text@.len(),
    ensures
        matches_res(text@, i as int, sp_obj_items(text@, i as int, model_pairs(children@)), r),
    decreases text@.len() - i, 3int,
{
    let ghost s = text@;
    let ghost acc = model_pairs(children@);
    let j = consume_whitespace(text, i);
    proof {
        lemma_obj_items_ws(s, i as int, acc);
    }
    if j >= text.len() {
        return Err(ParseError::UnclosedObject);
    }
    let c = text[j];
    if c == '}' {
        return Ok((JSONObject::Object { children }, j + 1));
    }
    match parse_any_at(text, j) {
        Err(e) => Err(e),
        Ok((k, j2)) => {
            proof {
                assert(adv(s, j as int, j2 as int) == j2 as int);
            }
            parse_obj_colon(text, j2, children, k)
        },
    }
}

fn parse_obj_colon(
    text: &Vec<char>,
    i: usize,
    children: Vec<(JSONObject, JSONObject)>,
    k: JSONObject,
) -> (r: Result<(JSONObject, usize), ParseError>)
    requires
        i <= text@.len(),
    ensures
        matches_res(
            text@,
            i as int,
            sp_obj_colon(text@, i as int, model_pairs(children@), k.model()),
            r,
        ),
    decreases text@.len() - i, 3int,
{
    let ghost s = text@;
    let j = consume_whitespace(text, i);
    proof {
        lemma_obj_colon_ws(s, i as int, model_pairs(children@), k.model());
    }
    if j >= text.len() {
        return Err(ParseError::InputEndedExpectingColon);
    }
    let c = text[j];
    if c == ':' {
        parse_obj_value(text, j + 1, children, k)
    } else {
        Err(ParseError::MissingColon { found: c })
    }
}

fn parse_obj_value(
    text: &Vec<char>,
    i: usize,
    children: Vec<(JSONObject, JSONObject)>,
    k: JSONObject,
) -> (r: Result<(JSONObject, usize), ParseError>)
    requires
        i <= text@.len(),
    ensures
        matches_res(
            text@,
            i as int,
            sp_obj_value(text@, i as int, model_pairs(children@), k.model()),
            r,
        ),
    decreases text@.len() - i, 4int,
{
    let ghost s = text@;
    let ghost cv = children@;
    let ghost acc = model_pairs(children@);
    if i >= text.len() {
        return Err(ParseError::EmptyInput);
    }
    match parse_any_at(text, i) {
        Err(e) => Err(e),
        Ok((v, j)) => {
            let mut children2 = children;
            proof {
                assert(adv(s, i as int, j as int) == j as int);
            }
            children2.push((k, v));
            proof {
                assert(children2@.drop_last() =~= cv);
                assert(children2@.last() == (k, v));
                assert(model_pairs(children2@) == acc.push((k.model(), v.model())));
            }
            parse_obj_after(text, j, children2)
        },
    }
}

fn parse_obj_after(text: &Vec<char>, i: usize, children: Vec<(JSONObject, JSONObject)>) -> (r:
    Result<(JSONObject, usize), ParseError>)
    requires
        i <= text@.len(),
    ensures
        matches_res(text@, i as int, sp_obj_after(text@, i as int, model_pairs(children@)), r),
    decreases text@.len() - i, 3int,
{
    let ghost s = text@;
    let j = consume_whitespace(text, i);
    proof {
        lemma_obj_after_ws(s, i as int, model_pairs(children@));
    }
    if j >= text.len() {
        return Err(ParseError::UnclosedObjectField);
    }
    let c = text[j];
    if c == ',' {
        parse_obj_items(text, j + 1, children)
    } else if c == '}' {
        Ok((JSONObject::Object { children }, j + 1))
    } else {
        Err(ParseError::UnexpectedSymbol { found: c })
    }
}

fn parse_arr_items(text: &Vec<char>, i: usize, values: Vec<JSONObject>) -> (r: Result<
    (JSONObject, usize),
    ParseError,
>)
    requires
        i <= text@.len(),
    ensures
        matches_res(text@, i as int, sp_arr_items(text@, i as int, model_elems(values@)), r),
    decreases text@.len() - i, 3int,
{
    let ghost s = text@;
    let ghost acc = model_elems(values@);
    let j = consume_whitespace(text, i);
    proof {
        lemma_arr_items_ws(s, i as int, acc);
    }
    if j >= text.len() {
        return Err(ParseError::UnclosedArray);
    }
    let c = text[j];
    if c == ',' {
        parse_arr_items(text, j + 1, values)
    } else if c == ']' {
        Ok((JSONObject::Array { values }, j + 1))
    } else {
        match parse_any_at(text, j) {
            Err(e) => Err(e),
            Ok((v, j2)) => {
                let ghost vv = values@;
                let mut values2 = values;
                proof {
                    assert(adv(s, j as int, j2 as int) == j2 as int);
                }
                values2.push(v);
                proof {
                    assert(values2@.drop_last() =~= vv);
                    assert(values2@.last() == v);
                    assert(model_elems(values2@) == acc.push(v.model()));
                }
                parse_arr_items(text, j2, values2)
            },
        }
    }
}

/// Parses exactly one JSON value from the front of `text`; whitespace before
/// the value is consumed, and trailing content after the value is silently
/// ignored.  On failure, returns the first error the descent met, as
/// [`sp_parse`] lays down.
pub fn parse(text: &str) -> (r: Result<JSONObject, ParseError>)
    ensures
        match r {
            Ok(v) => sp_parse(text@) == Ok::<JsonVal, ErrKind>(v.model()),
            Err(e) => sp_parse(text@) == Err::<JsonVal, ErrKind>(e.model()),
        },
{
    let chars = crate::text::str_to_chars(text);
    match parse_any_at(&chars, 0) {
        Ok((v, _j)) => Ok(v),
        Err(e) => Err(e),
    }
}

} // verus!

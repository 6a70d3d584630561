//! The value grammar over a byte sequence, and the scanners for its tokens.
//!
//! Every rule takes the bytes seen so far and whether more may follow
//! (`more`). When a rule needs a byte past the end it answers `Res::More`
//! if more may follow, and fails with `UnexpectedEndOfInput` otherwise.
use vstd::prelude::*;
use crate::byterange::{in_class, is_prefix, lemma_run_end_bounds, lemma_run_end_prefix, run_end, ByteClass};
use crate::value::{lemma_ranges_mono, ranges_within, Tree};

verus! {

pub const QUOTE: u8 = 0x22;
pub const BACKSLASH: u8 = 0x5c;
pub const SLASH: u8 = 0x2f;
pub const OPEN_BRACE: u8 = 0x7b;
pub const CLOSE_BRACE: u8 = 0x7d;
pub const OPEN_BRACKET: u8 = 0x5b;
pub const CLOSE_BRACKET: u8 = 0x5d;
pub const COMMA: u8 = 0x2c;
pub const COLON: u8 = 0x3a;
pub const PLUS: u8 = 0x2b;
pub const MINUS: u8 = 0x2d;
pub const DOT: u8 = 0x2e;
pub const LOWER_E: u8 = 0x65;
pub const UPPER_E: u8 = 0x45;
pub const LOWER_T: u8 = 0x74;
pub const LOWER_F: u8 = 0x66;
pub const LOWER_N: u8 = 0x6e;
pub const LOWER_B: u8 = 0x62;
pub const LOWER_R: u8 = 0x72;

/// A keyword, or the delimiter that must follow an object key.
#[derive(Debug, Clone, Copy, PartialEq, Eq, Structural)]
pub enum Literal {
    True,
    False,
    Null,
    Colon,
}

/// The first error met; positions are byte offsets into the whole input.
#[derive(Debug, Clone, Copy, PartialEq, Eq, Structural)]
pub enum ParseError {
    /// The input ended inside a value.
    UnexpectedEndOfInput,
    /// A byte that no rule expects at that position.
    UnexpectedToken(u8, usize),
    /// A keyword or a `:` was expected.
    ExpectedLiteral(Literal, usize),
    /// A backslash followed by a byte that names no escape.
    InvalidEscape(u8, usize),
}

/// What a rule gives: a tree and the offset just past it, an error, or a
/// request for more bytes.
pub enum Res {
    Parsed(Tree, int),
    Failed(ParseError),
    More,
}

pub open spec fn end_res(more: bool) -> Res {
    if more {
        Res::More
    } else {
        Res::Failed(ParseError::UnexpectedEndOfInput)
    }
}

pub open spec fn is_space(b: u8) -> bool {
    in_class(ByteClass::Space, b)
}

pub open spec fn is_digit(b: u8) -> bool {
    in_class(ByteClass::Digit, b)
}

pub open spec fn is_sign(b: u8) -> bool {
    b == PLUS || b == MINUS
}

pub open spec fn starts_number(b: u8) -> bool {
    is_digit(b) || is_sign(b) || b == DOT
}

/// The bytes that may follow a backslash inside a string.
pub open spec fn is_escape(b: u8) -> bool {
    b == QUOTE || b == BACKSLASH || b == SLASH || b == LOWER_B || b == LOWER_F || b == LOWER_N
        || b == LOWER_R || b == LOWER_T
}

pub open spec fn word(l: Literal) -> Seq<u8> {
    match l {
        Literal::True => seq![0x74u8, 0x72u8, 0x75u8, 0x65u8],
        Literal::False => seq![0x66u8, 0x61u8, 0x6cu8, 0x73u8, 0x65u8],
        Literal::Null => seq![0x6eu8, 0x75u8, 0x6cu8, 0x6cu8],
        Literal::Colon => seq![0x3au8],
    }
}

pub open spec fn word_tree(l: Literal) -> Tree {
    match l {
        Literal::True => Tree::Bool(true),
        Literal::False => Tree::Bool(false),
        _ => Tree::Null,
    }
}

/// A number that reaches the end of the bytes seen so far.
pub open spec fn number_at_end(more: bool, i: int, j: int) -> Res {
    if more {
        Res::More
    } else {
        Res::Parsed(Tree::Number(i, j), j)
    }
}

/// The exponent digits of a number that starts at `i`, from `k` on, up to
/// the first byte that is not a digit.
pub open spec fn num_exp(s: Seq<u8>, more: bool, i: int, k: int) -> Res {
    let k3 = run_end(s, k, ByteClass::Digit);
    if k3 >= s.len() {
        number_at_end(more, i, k3)
    } else {
        Res::Parsed(Tree::Number(i, k3), k3)
    }
}

/// The optional exponent of a number whose mantissa spans `[i, j)`, `j` inside the input.
pub open spec fn exponent(s: Seq<u8>, more: bool, i: int, j: int) -> Res {
    if s[j] == LOWER_E || s[j] == UPPER_E {
        let k = j + 1;
        if k >= s.len() {
            end_res(more)
        } else {
            let k2 = if is_sign(s[k]) { k + 1 } else { k };
            if k2 >= s.len() {
                end_res(more)
            } else if !is_digit(s[k2]) {
                Res::Failed(ParseError::UnexpectedToken(s[k2], k2 as usize))
            } else {
                num_exp(s, more, i, k2)
            }
        }
    } else {
        Res::Parsed(Tree::Number(i, j), j)
    }
}

/// The fraction digits of a number that starts at `i`, from `j` on; then the exponent.
pub open spec fn num_frac(s: Seq<u8>, more: bool, i: int, j: int) -> Res {
    let j2 = run_end(s, j, ByteClass::Digit);
    if j2 >= s.len() {
        number_at_end(more, i, j2)
    } else {
        exponent(s, more, i, j2)
    }
}

/// The integer digits of a number that starts at `i`, from `j` on; then an
/// optional `.` with the fraction, and the exponent.
pub open spec fn num_int(s: Seq<u8>, more: bool, i: int, j: int) -> Res {
    let j1 = run_end(s, j, ByteClass::Digit);
    if j1 >= s.len() {
        number_at_end(more, i, j1)
    } else if s[j1] == DOT {
        num_frac(s, more, i, j1 + 1)
    } else {
        exponent(s, more, i, j1)
    }
}

/// A number at `i`: an optional sign, then digits with an optional `.` and
/// optional digits, or a `.` and digits; then an optional exponent.
pub open spec fn number(s: Seq<u8>, more: bool, i: int) -> Res {
    let j0 = if is_sign(s[i]) { i + 1 } else { i };
    if j0 >= s.len() {
        end_res(more)
    } else if is_digit(s[j0]) {
        num_int(s, more, i, j0)
    } else if s[j0] == DOT {
        if j0 + 1 >= s.len() {
            end_res(more)
        } else if !is_digit(s[j0 + 1]) {
            Res::Failed(ParseError::UnexpectedToken(s[j0 + 1], (j0 + 1) as usize))
        } else {
            num_frac(s, more, i, j0 + 1)
        }
    } else {
        Res::Failed(ParseError::UnexpectedToken(s[j0], j0 as usize))
    }
}

/// The rest of a string whose opening quote is at `i`, from `j` on.
pub open spec fn string_from(s: Seq<u8>, more: bool, i: int, j: int) -> Res
    decreases s.len() - j,
{
    if j < 0 || j >= s.len() {
        end_res(more)
    } else if s[j] == QUOTE {
        Res::Parsed(Tree::Str(i + 1, j), j + 1)
    } else if s[j] == BACKSLASH {
        if j + 1 >= s.len() {
            end_res(more)
        } else if is_escape(s[j + 1]) {
            string_from(s, more, i, j + 2)
        } else {
            Res::Failed(ParseError::InvalidEscape(s[j + 1], (j + 1) as usize))
        }
    } else {
        string_from(s, more, i, j + 1)
    }
}

/// A string at `i`: its range is the raw bytes between the quotes, escapes kept.
pub open spec fn string(s: Seq<u8>, more: bool, i: int) -> Res {
    string_from(s, more, i, i + 1)
}

/// The rest of keyword `l` starting at `i`, from its `k`-th byte on.
pub open spec fn keyword_from(s: Seq<u8>, more: bool, i: int, l: Literal, k: int) -> Res
    decreases word(l).len() - k,
{
    if k < 0 || k >= word(l).len() {
        Res::Parsed(word_tree(l), i + word(l).len())
    } else if i + k >= s.len() {
        end_res(more)
    } else if s[i + k] != word(l)[k] {
        Res::Failed(ParseError::ExpectedLiteral(l, (i + k) as usize))
    } else {
        keyword_from(s, more, i, l, k + 1)
    }
}

/// Keyword `l` at `i`, matched byte for byte.
pub open spec fn keyword(s: Seq<u8>, more: bool, i: int, l: Literal) -> Res {
    keyword_from(s, more, i, l, 0)
}

/// A value at `i`, after any whitespace; the first byte picks the rule.
pub open spec fn value_at(s: Seq<u8>, more: bool, i: int) -> Res
    decreases s.len() - i, 0int,
{
    if i < 0 || i >= s.len() {
        end_res(more)
    } else if is_space(s[i]) {
        value_at(s, more, i + 1)
    } else if s[i] == OPEN_BRACE {
        object_open(s, more, i + 1)
    } else if s[i] == OPEN_BRACKET {
        array_open(s, more, i + 1)
    } else if s[i] == QUOTE {
        string(s, more, i)
    } else if s[i] == LOWER_T {
        keyword(s, more, i, Literal::True)
    } else if s[i] == LOWER_F {
        keyword(s, more, i, Literal::False)
    } else if s[i] == LOWER_N {
        keyword(s, more, i, Literal::Null)
    } else if starts_number(s[i]) {
        number(s, more, i)
    } else {
        Res::Failed(ParseError::UnexpectedToken(s[i], i as usize))
    }
}

/// An array after its `[`.
pub open spec fn array_open(s: Seq<u8>, more: bool, i: int) -> Res
    decreases s.len() - i, 2int,
{
    if i < 0 || i >= s.len() {
        end_res(more)
    } else if is_space(s[i]) {
        array_open(s, more, i + 1)
    } else if s[i] == CLOSE_BRACKET {
        Res::Parsed(Tree::Array(Seq::empty()), i + 1)
    } else {
        array_items(s, more, Seq::empty(), i)
    }
}

/// The next element of an array that holds `items` so far.
pub open spec fn array_items(s: Seq<u8>, more: bool, items: Seq<Tree>, i: int) -> Res
    decreases s.len() - i, 1int,
{
    match value_at(s, more, i) {
        Res::Parsed(v, k) => if i < k <= s.len() {
            array_after(s, more, items.push(v), k)
        } else {
            // a value always ends after it starts; this branch is never taken
            Res::Failed(ParseError::UnexpectedEndOfInput)
        },
        r => r,
    }
}

/// After an element: `,` and another element, or `]`.
pub open spec fn array_after(s: Seq<u8>, more: bool, items: Seq<Tree>, k: int) -> Res
    decreases s.len() - k, 0int,
{
    if k < 0 || k >= s.len() {
        end_res(more)
    } else if is_space(s[k]) {
        array_after(s, more, items, k + 1)
    } else if s[k] == COMMA {
        array_items(s, more, items, k + 1)
    } else if s[k] == CLOSE_BRACKET {
        Res::Parsed(Tree::Array(items), k + 1)
    } else {
        Res::Failed(ParseError::UnexpectedToken(s[k], k as usize))
    }
}

/// An object after its `{`.
pub open spec fn object_open(s: Seq<u8>, more: bool, i: int) -> Res
    decreases s.len() - i, 2int,
{
    if i < 0 || i >= s.len() {
        end_res(more)
    } else if is_space(s[i]) {
        object_open(s, more, i + 1)
    } else if s[i] == CLOSE_BRACE {
        Res::Parsed(Tree::Object(Seq::empty()), i + 1)
    } else {
        object_field(s, more, Seq::empty(), i)
    }
}

/// The next field, `"key" : value`, of an object that holds `fields` so far.
pub open spec fn object_field(s: Seq<u8>, more: bool, fields: Seq<(int, int, Tree)>, i: int) -> Res
    decreases s.len() - i, 1int,
{
    if i < 0 || i >= s.len() {
        end_res(more)
    } else if is_space(s[i]) {
        object_field(s, more, fields, i + 1)
    } else if s[i] != QUOTE {
        Res::Failed(ParseError::UnexpectedToken(s[i], i as usize))
    } else {
        match string(s, more, i) {
            Res::Parsed(_, k) => if i + 2 <= k <= s.len() {
                object_colon(s, more, fields, i + 1, k - 1, k)
            } else {
                // a string always spans its two quotes; this branch is never taken
                Res::Failed(ParseError::UnexpectedEndOfInput)
            },
            r => r,
        }
    }
}

/// After the key `[a, b)`: the `:`.
pub open spec fn object_colon(
    s: Seq<u8>,
    more: bool,
    fields: Seq<(int, int, Tree)>,
    a: int,
    b: int,
    k: int,
) -> Res
    decreases s.len() - k, 0int,
{
    if k < 0 || k >= s.len() {
        end_res(more)
    } else if is_space(s[k]) {
        object_colon(s, more, fields, a, b, k + 1)
    } else if s[k] != COLON {
        Res::Failed(ParseError::ExpectedLiteral(Literal::Colon, k as usize))
    } else {
        object_value(s, more, fields, a, b, k + 1)
    }
}

/// The value of the field with key `[a, b)`.
pub open spec fn object_value(
    s: Seq<u8>,
    more: bool,
    fields: Seq<(int, int, Tree)>,
    a: int,
    b: int,
    i: int,
) -> Res
    decreases s.len() - i, 1int,
{
    match value_at(s, more, i) {
        Res::Parsed(v, k) => if i < k <= s.len() {
            object_after(s, more, fields.push((a, b, v)), k)
        } else {
            // a value always ends after it starts; this branch is never taken
            Res::Failed(ParseError::UnexpectedEndOfInput)
        },
        r => r,
    }
}

/// After a field: `,` and another field, or `}`.
pub open spec fn object_after(s: Seq<u8>, more: bool, fields: Seq<(int, int, Tree)>, k: int) -> Res
    decreases s.len() - k, 0int,
{
    if k < 0 || k >= s.len() {
        end_res(more)
    } else if is_space(s[k]) {
        object_after(s, more, fields, k + 1)
    } else if s[k] == COMMA {
        object_field(s, more, fields, k + 1)
    } else if s[k] == CLOSE_BRACE {
        Res::Parsed(Tree::Object(fields), k + 1)
    } else {
        Res::Failed(ParseError::UnexpectedToken(s[k], k as usize))
    }
}

/// Whitespace before a value is skipped: the value parsed at `i` is the one
/// parsed where the run of spaces, tabs, carriage returns and line feeds that
/// starts at `i` ends.
pub proof fn lemma_space_before_value(s: Seq<u8>, more: bool, i: int)
    requires
        0 <= i <= s.len(),
    ensures
        value_at(s, more, i) == value_at(s, more, run_end(s, i, ByteClass::Space)),
    decreases s.len() - i,
{
    if i < s.len() && is_space(s[i]) {
        lemma_space_before_value(s, more, i + 1);
    }
}

/// Whitespace before a `,` or `]` that follows an array element is skipped.
pub proof fn lemma_space_in_array(s: Seq<u8>, more: bool, items: Seq<Tree>, k: int)
    requires
        0 <= k <= s.len(),
    ensures
        array_after(s, more, items, k) == array_after(s, more, items, run_end(s, k, ByteClass::Space)),
    decreases s.len() - k,
{
    if k < s.len() && is_space(s[k]) {
        lemma_space_in_array(s, more, items, k + 1);
    }
}

/// Whitespace between an object key and its `:` is skipped.
pub proof fn lemma_space_before_colon(
    s: Seq<u8>,
    more: bool,
    fields: Seq<(int, int, Tree)>,
    a: int,
    b: int,
    k: int,
)
    requires
        0 <= k <= s.len(),
    ensures
        object_colon(s, more, fields, a, b, k) == object_colon(
            s,
            more,
            fields,
            a,
            b,
            run_end(s, k, ByteClass::Space),
        ),
    decreases s.len() - k,
{
    if k < s.len() && is_space(s[k]) {
        lemma_space_before_colon(s, more, fields, a, b, k + 1);
    }
}

/// Whitespace before a `,` or `}` that follows an object field, and before a key, is skipped.
pub proof fn lemma_space_in_object(s: Seq<u8>, more: bool, fields: Seq<(int, int, Tree)>, k: int)
    requires
        0 <= k <= s.len(),
    ensures
        object_after(s, more, fields, k) == object_after(s, more, fields, run_end(s, k, ByteClass::Space)),
        object_field(s, more, fields, k) == object_field(s, more, fields, run_end(s, k, ByteClass::Space)),
    decreases s.len() - k,
{
    if k < s.len() && is_space(s[k]) {
        lemma_space_in_object(s, more, fields, k + 1);
    }
}

/// A value that ended at `k` goes on over the whitespace after it; whether
/// that run is over is only known once a byte that ends it, or the end of a
/// complete input, is seen.
pub open spec fn trailing(r: Res, s: Seq<u8>, more: bool) -> Res {
    match r {
        Res::Parsed(t, k) => {
            let e = run_end(s, k, ByteClass::Space);
            if more && e >= s.len() {
                Res::More
            } else {
                Res::Parsed(t, e)
            }
        },
        other => other,
    }
}

/// A whole document: one value, with any whitespace before and after it.
pub open spec fn document(s: Seq<u8>, more: bool) -> Res {
    trailing(value_at(s, more, 0), s, more)
}

/// The end of a parsed result lies inside the input.
pub open spec fn bounded(r: Res, s: Seq<u8>) -> bool {
    r matches Res::Parsed(_, k) ==> k <= s.len()
}

/// A result that is settled on `(s, more)` is the result on `(t, more_t)`.
pub open spec fn carries(r: Res, r_t: Res) -> bool {
    r != Res::More ==> r_t == r
}

proof fn lemma_number_bounded(s: Seq<u8>, more: bool, i: int)
    requires
        0 <= i < s.len(),
    ensures
        bounded(number(s, more, i), s),
{
    let j0 = if is_sign(s[i]) { i + 1 } else { i };
    if j0 < s.len() && is_digit(s[j0]) {
        lemma_run_end_bounds(s, j0, ByteClass::Digit);
        let j1 = run_end(s, j0, ByteClass::Digit);
        if j1 < s.len() {
            if s[j1] == DOT {
                lemma_run_end_bounds(s, j1 + 1, ByteClass::Digit);
                let j2 = run_end(s, j1 + 1, ByteClass::Digit);
                if j2 < s.len() {
                    lemma_exponent_bounded(s, more, i, j2);
                }
            } else {
                lemma_exponent_bounded(s, more, i, j1);
            }
        }
    } else if j0 + 1 < s.len() && s[j0] == DOT {
        lemma_run_end_bounds(s, j0 + 1, ByteClass::Digit);
        let j2 = run_end(s, j0 + 1, ByteClass::Digit);
        if j2 < s.len() {
            lemma_exponent_bounded(s, more, i, j2);
        }
    }
}

proof fn lemma_exponent_bounded(s: Seq<u8>, more: bool, i: int, j: int)
    requires
        0 <= j < s.len(),
    ensures
        bounded(exponent(s, more, i, j), s),
{
    let k = j + 1;
    if k < s.len() {
        let k2 = if is_sign(s[k]) { k + 1 } else { k };
        if k2 < s.len() {
            lemma_run_end_bounds(s, k2, ByteClass::Digit);
        }
    }
}

proof fn lemma_string_bounded(s: Seq<u8>, more: bool, i: int, j: int)
    ensures
        bounded(string_from(s, more, i, j), s),
        string_from(s, more, i, j) matches Res::Parsed(_, k) ==> j < k,
    decreases s.len() - j,
{
    if 0 <= j < s.len() && s[j] != QUOTE {
        if s[j] == BACKSLASH {
            if j + 1 < s.len() && is_escape(s[j + 1]) {
                lemma_string_bounded(s, more, i, j + 2);
            }
        } else {
            lemma_string_bounded(s, more, i, j + 1);
        }
    }
}

proof fn lemma_keyword_bounded(s: Seq<u8>, more: bool, i: int, l: Literal, k: int)
    requires
        0 <= k <= word(l).len(),
        i + k <= s.len(),
    ensures
        bounded(keyword_from(s, more, i, l, k), s),
    decreases word(l).len() - k,
{
    if k < word(l).len() && i + k < s.len() && s[i + k] == word(l)[k] {
        lemma_keyword_bounded(s, more, i, l, k + 1);
    }
}

proof fn lemma_value_prefix(s: Seq<u8>, more: bool, t: Seq<u8>, more_t: bool, i: int)
    requires
        continues(s, more, t, more_t),
    ensures
        bounded(value_at(s, more, i), s),
        carries(value_at(s, more, i), value_at(t, more_t, i)),
    decreases s.len() - i, 0int,
{
    if 0 <= i < s.len() {
        assert(t[i] == s[i]);
        if is_space(s[i]) {
            lemma_value_prefix(s, more, t, more_t, i + 1);
        } else if s[i] == OPEN_BRACE {
            lemma_object_open_prefix(s, more, t, more_t, i + 1);
        } else if s[i] == OPEN_BRACKET {
            lemma_array_open_prefix(s, more, t, more_t, i + 1);
        } else if s[i] == QUOTE {
            lemma_string_bounded(s, more, i, i + 1);
            if string(s, more, i) != Res::More {
                lemma_string_prefix(s, more, t, more_t, i, i + 1);
            }
        } else if s[i] == LOWER_T || s[i] == LOWER_F || s[i] == LOWER_N {
            let l = if s[i] == LOWER_T {
                Literal::True
            } else if s[i] == LOWER_F {
                Literal::False
            } else {
                Literal::Null
            };
            lemma_keyword_bounded(s, more, i, l, 0);
            if keyword(s, more, i, l) != Res::More {
                lemma_keyword_prefix(s, more, t, more_t, i, l, 0);
            }
        } else if starts_number(s[i]) {
            lemma_number_bounded(s, more, i);
            if number(s, more, i) != Res::More {
                lemma_number_prefix(s, more, t, more_t, i);
            }
        }
    } else if !more {
        assert(t == s);
    }
}

proof fn lemma_array_open_prefix(s: Seq<u8>, more: bool, t: Seq<u8>, more_t: bool, i: int)
    requires
        continues(s, more, t, more_t),
    ensures
        bounded(array_open(s, more, i), s),
        carries(array_open(s, more, i), array_open(t, more_t, i)),
    decreases s.len() - i, 2int,
{
    if 0 <= i < s.len() {
        assert(t[i] == s[i]);
        if is_space(s[i]) {
            lemma_array_open_prefix(s, more, t, more_t, i + 1);
        } else if s[i] != CLOSE_BRACKET {
            lemma_array_items_prefix(s, more, t, more_t, Seq::empty(), i);
        }
    } else if !more {
        assert(t == s);
    }
}

proof fn lemma_array_items_prefix(
    s: Seq<u8>,
    more: bool,
    t: Seq<u8>,
    more_t: bool,
    items: Seq<Tree>,
    i: int,
)
    requires
        continues(s, more, t, more_t),
    ensures
        bounded(array_items(s, more, items, i), s),
        carries(array_items(s, more, items, i), array_items(t, more_t, items, i)),
    decreases s.len() - i, 1int,
{
    lemma_value_prefix(s, more, t, more_t, i);
    if let Res::Parsed(v, k) = value_at(s, more, i) {
        if i < k <= s.len() {
            lemma_array_after_prefix(s, more, t, more_t, items.push(v), k);
        }
    }
}

proof fn lemma_array_after_prefix(
    s: Seq<u8>,
    more: bool,
    t: Seq<u8>,
    more_t: bool,
    items: Seq<Tree>,
    k: int,
)
    requires
        continues(s, more, t, more_t),
    ensures
        bounded(array_after(s, more, items, k), s),
        carries(array_after(s, more, items, k), array_after(t, more_t, items, k)),
    decreases s.len() - k, 0int,
{
    if 0 <= k < s.len() {
        assert(t[k] == s[k]);
        if is_space(s[k]) {
            lemma_array_after_prefix(s, more, t, more_t, items, k + 1);
        } else if s[k] == COMMA {
            lemma_array_items_prefix(s, more, t, more_t, items, k + 1);
        }
    } else if !more {
        assert(t == s);
    }
}

proof fn lemma_object_open_prefix(s: Seq<u8>, more: bool, t: Seq<u8>, more_t: bool, i: int)
    requires
        continues(s, more, t, more_t),
    ensures
        bounded(object_open(s, more, i), s),
        carries(object_open(s, more, i), object_open(t, more_t, i)),
    decreases s.len() - i, 2int,
{
    if 0 <= i < s.len() {
        assert(t[i] == s[i]);
        if is_space(s[i]) {
            lemma_object_open_prefix(s, more, t, more_t, i + 1);
        } else if s[i] != CLOSE_BRACE {
            lemma_object_field_prefix(s, more, t, more_t, Seq::empty(), i);
        }
    } else if !more {
        assert(t == s);
    }
}

proof fn lemma_object_field_prefix(
    s: Seq<u8>,
    more: bool,
    t: Seq<u8>,
    more_t: bool,
    fields: Seq<(int, int, Tree)>,
    i: int,
)
    requires
        continues(s, more, t, more_t),
    ensures
        bounded(object_field(s, more, fields, i), s),
        carries(object_field(s, more, fields, i), object_field(t, more_t, fields, i)),
    decreases s.len() - i, 1int,
{
    if 0 <= i < s.len() {
        assert(t[i] == s[i]);
        if is_space(s[i]) {
            lemma_object_field_prefix(s, more, t, more_t, fields, i + 1);
        } else if s[i] == QUOTE {
            lemma_string_bounded(s, more, i, i + 1);
            if string(s, more, i) != Res::More {
                lemma_string_prefix(s, more, t, more_t, i, i + 1);
            }
            if let Res::Parsed(_, k) = string(s, more, i) {
                if i + 2 <= k <= s.len() {
                    lemma_object_colon_prefix(s, more, t, more_t, fields, i + 1, k - 1, k);
                }
            }
        }
    } else if !more {
        assert(t == s);
    }
}

proof fn lemma_object_colon_prefix(
    s: Seq<u8>,
    more: bool,
    t: Seq<u8>,
    more_t: bool,
    fields: Seq<(int, int, Tree)>,
    a: int,
    b: int,
    k: int,
)
    requires
        continues(s, more, t, more_t),
    ensures
        bounded(object_colon(s, more, fields, a, b, k), s),
        carries(object_colon(s, more, fields, a, b, k), object_colon(t, more_t, fields, a, b, k)),
    decreases s.len() - k, 0int,
{
    if 0 <= k < s.len() {
        assert(t[k] == s[k]);
        if is_space(s[k]) {
            lemma_object_colon_prefix(s, more, t, more_t, fields, a, b, k + 1);
        } else if s[k] == COLON {
            lemma_object_value_prefix(s, more, t, more_t, fields, a, b, k + 1);
        }
    } else if !more {
        assert(t == s);
    }
}

proof fn lemma_object_value_prefix(
    s: Seq<u8>,
    more: bool,
    t: Seq<u8>,
    more_t: bool,
    fields: Seq<(int, int, Tree)>,
    a: int,
    b: int,
    i: int,
)
    requires
        continues(s, more, t, more_t),
    ensures
        bounded(object_value(s, more, fields, a, b, i), s),
        carries(object_value(s, more, fields, a, b, i), object_value(t, more_t, fields, a, b, i)),
    decreases s.len() - i, 1int,
{
    lemma_value_prefix(s, more, t, more_t, i);
    if let Res::Parsed(v, k) = value_at(s, more, i) {
        if i < k <= s.len() {
            lemma_object_after_prefix(s, more, t, more_t, fields.push((a, b, v)), k);
        }
    }
}

proof fn lemma_object_after_prefix(
    s: Seq<u8>,
    more: bool,
    t: Seq<u8>,
    more_t: bool,
    fields: Seq<(int, int, Tree)>,
    k: int,
)
    requires
        continues(s, more, t, more_t),
    ensures
        bounded(object_after(s, more, fields, k), s),
        carries(object_after(s, more, fields, k), object_after(t, more_t, fields, k)),
    decreases s.len() - k, 0int,
{
    if 0 <= k < s.len() {
        assert(t[k] == s[k]);
        if is_space(s[k]) {
            lemma_object_after_prefix(s, more, t, more_t, fields, k + 1);
        } else if s[k] == COMMA {
            lemma_object_field_prefix(s, more, t, more_t, fields, k + 1);
        }
    } else if !more {
        assert(t == s);
    }
}

/// Chunk invariance: once the bytes seen so far settle the document, as a
/// value or as an error, every input that starts with those bytes, whether
/// more may follow or not, gives the same value or error. In particular,
/// however an input is cut into chunks, the result reached after some chunk
/// is the result of parsing the whole input at once.
pub proof fn lemma_chunk_invariance(s: Seq<u8>, t: Seq<u8>, more_t: bool)
    requires
        is_prefix(s, t),
        document(s, true) != Res::More,
    ensures
        document(t, more_t) == document(s, true),
{
    lemma_value_prefix(s, true, t, more_t, 0);
    lemma_value_ranged(s, true, 0);
    if let Res::Parsed(_, k) = value_at(s, true, 0) {
        lemma_run_end_bounds(s, k, ByteClass::Space);
        lemma_run_end_prefix(s, t, k, ByteClass::Space);
    }
}

/// The tree of a parsed result keeps its ranges inside the bytes it consumed.
pub open spec fn ranged(r: Res) -> bool {
    r matches Res::Parsed(t, k) ==> 0 <= k && ranges_within(t, k)
}

pub open spec fn items_in(items: Seq<Tree>, n: int) -> bool {
    forall|j: int| 0 <= j < items.len() ==> ranges_within(#[trigger] items[j], n)
}

pub open spec fn fields_in(fields: Seq<(int, int, Tree)>, n: int) -> bool {
    forall|j: int|
        0 <= j < fields.len() ==> 0 <= (#[trigger] fields[j]).0 <= fields[j].1 <= n && ranges_within(
            fields[j].2,
            n,
        )
}

proof fn lemma_items_in_mono(items: Seq<Tree>, n: int, m: int)
    requires
        items_in(items, n),
        n <= m,
    ensures
        items_in(items, m),
{
    assert forall|j: int| 0 <= j < items.len() implies ranges_within(#[trigger] items[j], m) by {
        lemma_ranges_mono(items[j], n, m);
    }
}

proof fn lemma_fields_in_mono(fields: Seq<(int, int, Tree)>, n: int, m: int)
    requires
        fields_in(fields, n),
        n <= m,
    ensures
        fields_in(fields, m),
{
    assert forall|j: int| 0 <= j < fields.len() implies 0 <= (#[trigger] fields[j]).0 <= fields[j].1
        <= m && ranges_within(fields[j].2, m) by {
        lemma_ranges_mono(fields[j].2, n, m);
    }
}

proof fn lemma_number_ranged(s: Seq<u8>, more: bool, i: int)
    requires
        0 <= i < s.len(),
    ensures
        ranged(number(s, more, i)),
{
    let j0 = if is_sign(s[i]) { i + 1 } else { i };
    if j0 < s.len() && is_digit(s[j0]) {
        lemma_run_end_bounds(s, j0, ByteClass::Digit);
        let j1 = run_end(s, j0, ByteClass::Digit);
        if j1 < s.len() {
            if s[j1] == DOT {
                lemma_run_end_bounds(s, j1 + 1, ByteClass::Digit);
                let j2 = run_end(s, j1 + 1, ByteClass::Digit);
                if j2 < s.len() {
                    lemma_exponent_ranged(s, more, i, j2);
                }
            } else {
                lemma_exponent_ranged(s, more, i, j1);
            }
        }
    } else if j0 + 1 < s.len() && s[j0] == DOT {
        lemma_run_end_bounds(s, j0 + 1, ByteClass::Digit);
        let j2 = run_end(s, j0 + 1, ByteClass::Digit);
        if j2 < s.len() {
            lemma_exponent_ranged(s, more, i, j2);
        }
    }
}

proof fn lemma_exponent_ranged(s: Seq<u8>, more: bool, i: int, j: int)
    requires
        0 <= i <= j < s.len(),
    ensures
        ranged(exponent(s, more, i, j)),
{
    let k = j + 1;
    if k < s.len() {
        let k2 = if is_sign(s[k]) { k + 1 } else { k };
        if k2 < s.len() {
            lemma_run_end_bounds(s, k2, ByteClass::Digit);
        }
    }
}

proof fn lemma_string_ranged(s: Seq<u8>, more: bool, i: int, j: int)
    requires
        0 <= i < j,
    ensures
        string_from(s, more, i, j) matches Res::Parsed(t, k) ==> t == Tree::Str(i + 1, k - 1) && j
            < k <= s.len(),
    decreases s.len() - j,
{
    if 0 <= j < s.len() && s[j] != QUOTE {
        if s[j] == BACKSLASH {
            if j + 1 < s.len() && is_escape(s[j + 1]) {
                lemma_string_ranged(s, more, i, j + 2);
            }
        } else {
            lemma_string_ranged(s, more, i, j + 1);
        }
    }
}

proof fn lemma_keyword_ranged(s: Seq<u8>, more: bool, i: int, l: Literal, k: int)
    requires
        0 <= i,
    ensures
        ranged(keyword_from(s, more, i, l, k)),
    decreases word(l).len() - k,
{
    if 0 <= k < word(l).len() && i + k < s.len() && s[i + k] == word(l)[k] {
        lemma_keyword_ranged(s, more, i, l, k + 1);
    }
}

proof fn lemma_value_ranged(s: Seq<u8>, more: bool, i: int)
    requires
        0 <= i,
    ensures
        ranged(value_at(s, more, i)),
    decreases s.len() - i, 0int,
{
    if i < s.len() {
        if is_space(s[i]) {
            lemma_value_ranged(s, more, i + 1);
        } else if s[i] == OPEN_BRACE {
            lemma_object_open_ranged(s, more, i + 1);
        } else if s[i] == OPEN_BRACKET {
            lemma_array_open_ranged(s, more, i + 1);
        } else if s[i] == QUOTE {
            lemma_string_ranged(s, more, i, i + 1);
        } else if s[i] == LOWER_T {
            lemma_keyword_ranged(s, more, i, Literal::True, 0);
        } else if s[i] == LOWER_F {
            lemma_keyword_ranged(s, more, i, Literal::False, 0);
        } else if s[i] == LOWER_N {
            lemma_keyword_ranged(s, more, i, Literal::Null, 0);
        } else if starts_number(s[i]) {
            lemma_number_ranged(s, more, i);
        }
    }
}

proof fn lemma_array_open_ranged(s: Seq<u8>, more: bool, i: int)
    requires
        0 <= i,
    ensures
        ranged(array_open(s, more, i)),
    decreases s.len() - i, 2int,
{
    if i < s.len() {
        if is_space(s[i]) {
            lemma_array_open_ranged(s, more, i + 1);
        } else if s[i] != CLOSE_BRACKET {
            lemma_array_items_ranged(s, more, Seq::empty(), i);
        }
    }
}

proof fn lemma_array_items_ranged(s: Seq<u8>, more: bool, items: Seq<Tree>, i: int)
    requires
        0 <= i,
        items_in(items, i),
    ensures
        ranged(array_items(s, more, items, i)),
    decreases s.len() - i, 1int,
{
    lemma_value_ranged(s, more, i);
    if let Res::Parsed(v, k) = value_at(s, more, i) {
        if i < k <= s.len() {
            lemma_items_in_mono(items, i, k);
            assert(items_in(items.push(v), k));
            lemma_array_after_ranged(s, more, items.push(v), k);
        }
    }
}

proof fn lemma_array_after_ranged(s: Seq<u8>, more: bool, items: Seq<Tree>, k: int)
    requires
        0 <= k,
        items_in(items, k),
    ensures
        ranged(array_after(s, more, items, k)),
    decreases s.len() - k, 0int,
{
    if k < s.len() {
        lemma_items_in_mono(items, k, k + 1);
        if is_space(s[k]) {
            lemma_array_after_ranged(s, more, items, k + 1);
        } else if s[k] == COMMA {
            lemma_array_items_ranged(s, more, items, k + 1);
        }
    }
}

proof fn lemma_object_open_ranged(s: Seq<u8>, more: bool, i: int)
    requires
        0 <= i,
    ensures
        ranged(object_open(s, more, i)),
    decreases s.len() - i, 2int,
{
    if i < s.len() {
        if is_space(s[i]) {
            lemma_object_open_ranged(s, more, i + 1);
        } else if s[i] != CLOSE_BRACE {
            lemma_object_field_ranged(s, more, Seq::empty(), i);
        }
    }
}

proof fn lemma_object_field_ranged(s: Seq<u8>, more: bool, fields: Seq<(int, int, Tree)>, i: int)
    requires
        0 <= i,
        fields_in(fields, i),
    ensures
        ranged(object_field(s, more, fields, i)),
    decreases s.len() - i, 1int,
{
    if i < s.len() {
        if is_space(s[i]) {
            lemma_fields_in_mono(fields, i, i + 1);
            lemma_object_field_ranged(s, more, fields, i + 1);
        } else if s[i] == QUOTE {
            lemma_string_ranged(s, more, i, i + 1);
            if let Res::Parsed(_, k) = string(s, more, i) {
                if i + 2 <= k <= s.len() {
                    lemma_fields_in_mono(fields, i, k);
                    lemma_object_colon_ranged(s, more, fields, i + 1, k - 1, k);
                }
            }
        }
    }
}

proof fn lemma_object_colon_ranged(
    s: Seq<u8>,
    more: bool,
    fields: Seq<(int, int, Tree)>,
    a: int,
    b: int,
    k: int,
)
    requires
        0 <= a <= b <= k,
        fields_in(fields, k),
    ensures
        ranged(object_colon(s, more, fields, a, b, k)),
    decreases s.len() - k, 0int,
{
    if k < s.len() {
        lemma_fields_in_mono(fields, k, k + 1);
        if is_space(s[k]) {
            lemma_object_colon_ranged(s, more, fields, a, b, k + 1);
        } else if s[k] == COLON {
            lemma_object_value_ranged(s, more, fields, a, b, k + 1);
        }
    }
}

proof fn lemma_object_value_ranged(
    s: Seq<u8>,
    more: bool,
    fields: Seq<(int, int, Tree)>,
    a: int,
    b: int,
    i: int,
)
    requires
        0 <= a <= b <= i,
        fields_in(fields, i),
    ensures
        ranged(object_value(s, more, fields, a, b, i)),
    decreases s.len() - i, 1int,
{
    lemma_value_ranged(s, more, i);
    if let Res::Parsed(v, k) = value_at(s, more, i) {
        if i < k <= s.len() {
            lemma_fields_in_mono(fields, i, k);
            assert(fields_in(fields.push((a, b, v)), k));
            lemma_object_after_ranged(s, more, fields.push((a, b, v)), k);
        }
    }
}

proof fn lemma_object_after_ranged(s: Seq<u8>, more: bool, fields: Seq<(int, int, Tree)>, k: int)
    requires
        0 <= k,
        fields_in(fields, k),
    ensures
        ranged(object_after(s, more, fields, k)),
    decreases s.len() - k, 0int,
{
    if k < s.len() {
        lemma_fields_in_mono(fields, k, k + 1);
        if is_space(s[k]) {
            lemma_object_after_ranged(s, more, fields, k + 1);
        } else if s[k] == COMMA {
            lemma_object_field_ranged(s, more, fields, k + 1);
        }
    }
}

/// Every string and number range of a parsed document lies inside the bytes
/// the document consumed, so each is read from the input at its offsets.
pub proof fn lemma_document_ranges(s: Seq<u8>, more: bool)
    ensures
        ranged(document(s, more)),
{
    lemma_value_ranged(s, more, 0);
    lemma_value_prefix(s, more, s, more, 0);
    if let Res::Parsed(t, k) = value_at(s, more, 0) {
        lemma_run_end_bounds(s, k, ByteClass::Space);
        lemma_ranges_mono(t, k, run_end(s, k, ByteClass::Space));
    }
}

/// An object result keeps `fields` as its first fields, in their order.
pub open spec fn keeps(r: Res, fields: Seq<(int, int, Tree)>) -> bool {
    r matches Res::Parsed(t, _) ==> (t matches Tree::Object(fs) && fields.len() <= fs.len()
        && fs.take(fields.len() as int) == fields)
}

proof fn lemma_keeps_push(r: Res, fields: Seq<(int, int, Tree)>, f: (int, int, Tree))
    requires
        keeps(r, fields.push(f)),
    ensures
        keeps(r, fields),
{
    if let Res::Parsed(Tree::Object(fs), _) = r {
        assert(fs.take(fields.len() as int) =~= fields.push(f).take(fields.len() as int));
        assert(fields.push(f).take(fields.len() as int) =~= fields);
    }
}

/// Object fields are only ever appended: the fields parsed before the next
/// field stay first in the object, in document order; none is merged,
/// dropped or moved.
pub proof fn lemma_object_field_order(s: Seq<u8>, more: bool, fields: Seq<(int, int, Tree)>, i: int)
    ensures
        keeps(object_field(s, more, fields, i), fields),
    decreases s.len() - i, 1int,
{
    if 0 <= i < s.len() {
        if is_space(s[i]) {
            lemma_object_field_order(s, more, fields, i + 1);
        } else if s[i] == QUOTE {
            if let Res::Parsed(_, k) = string(s, more, i) {
                if i + 2 <= k <= s.len() {
                    lemma_object_colon_order(s, more, fields, i + 1, k - 1, k);
                }
            }
        }
    }
}

proof fn lemma_object_colon_order(
    s: Seq<u8>,
    more: bool,
    fields: Seq<(int, int, Tree)>,
    a: int,
    b: int,
    k: int,
)
    ensures
        keeps(object_colon(s, more, fields, a, b, k), fields),
    decreases s.len() - k, 0int,
{
    if 0 <= k < s.len() {
        if is_space(s[k]) {
            lemma_object_colon_order(s, more, fields, a, b, k + 1);
        } else if s[k] == COLON {
            lemma_object_value_order(s, more, fields, a, b, k + 1);
        }
    }
}

proof fn lemma_object_value_order(
    s: Seq<u8>,
    more: bool,
    fields: Seq<(int, int, Tree)>,
    a: int,
    b: int,
    i: int,
)
    ensures
        keeps(object_value(s, more, fields, a, b, i), fields),
    decreases s.len() - i, 1int,
{
    if let Res::Parsed(v, k) = value_at(s, more, i) {
        if i < k <= s.len() {
            lemma_object_after_order(s, more, fields.push((a, b, v)), k);
            lemma_keeps_push(object_after(s, more, fields.push((a, b, v)), k), fields, (a, b, v));
        }
    }
}

/// After a field, the object that comes out starts with the fields parsed so far, in order.
pub proof fn lemma_object_after_order(s: Seq<u8>, more: bool, fields: Seq<(int, int, Tree)>, k: int)
    ensures
        keeps(object_after(s, more, fields, k), fields),
    decreases s.len() - k, 0int,
{
    if 0 <= k < s.len() {
        if is_space(s[k]) {
            lemma_object_after_order(s, more, fields, k + 1);
        } else if s[k] == COMMA {
            lemma_object_field_order(s, more, fields, k + 1);
        } else if s[k] == CLOSE_BRACE {
            assert(fields.take(fields.len() as int) =~= fields);
        }
    }
}

/// The bytes of `chunks`, one after another.
pub open spec fn joined(chunks: Seq<Seq<u8>>) -> Seq<u8>
    decreases chunks.len(),
{
    if chunks.len() == 0 {
        Seq::empty()
    } else {
        joined(chunks.drop_last()) + chunks.last()
    }
}

/// What a parser fed `chunks` in order gives, from the `i`-th chunk on: the
/// result after the first chunk whose bytes, with those before, settle the
/// document; or, when none does, the result once the input is declared complete.
pub open spec fn fed_from(chunks: Seq<Seq<u8>>, i: int) -> Res
    decreases chunks.len() - i,
{
    if i < 0 || i >= chunks.len() {
        document(joined(chunks), false)
    } else {
        let r = document(joined(chunks.take(i + 1)), true);
        if r != Res::More {
            r
        } else {
            fed_from(chunks, i + 1)
        }
    }
}

/// What feeding `chunks` in order, then declaring the input complete, gives.
pub open spec fn fed(chunks: Seq<Seq<u8>>) -> Res {
    fed_from(chunks, 0)
}

proof fn lemma_joined_prefix(chunks: Seq<Seq<u8>>, m: int)
    requires
        0 <= m <= chunks.len(),
    ensures
        is_prefix(joined(chunks.take(m)), joined(chunks)),
    decreases chunks.len(),
{
    if m == chunks.len() {
        assert(chunks.take(m) =~= chunks);
    } else {
        let d = chunks.drop_last();
        assert(d.take(m) =~= chunks.take(m));
        lemma_joined_prefix(d, m);
        let a = joined(d.take(m));
        assert forall|k: int| 0 <= k < a.len() implies #[trigger] joined(chunks)[k] == a[k] by {
            assert(joined(chunks)[k] == joined(d)[k]);
        }
    }
}

proof fn lemma_fed_from(chunks: Seq<Seq<u8>>, i: int)
    requires
        0 <= i <= chunks.len(),
    ensures
        fed_from(chunks, i) == document(joined(chunks), false),
    decreases chunks.len() - i,
{
    if i < chunks.len() {
        if document(joined(chunks.take(i + 1)), true) != Res::More {
            lemma_joined_prefix(chunks, i + 1);
            lemma_chunk_invariance(joined(chunks.take(i + 1)), joined(chunks), false);
        } else {
            lemma_fed_from(chunks, i + 1);
        }
    }
}

/// However an input is cut into chunks, feeding them in order and then
/// declaring the input complete gives what parsing the whole input at once
/// gives: the same tree and consumed count, or the same error at the same position.
pub proof fn lemma_any_split(chunks: Seq<Seq<u8>>)
    ensures
        fed(chunks) == document(joined(chunks), false),
{
    lemma_fed_from(chunks, 0);
}

/// Two ways of cutting the same input into chunks, byte by byte or all in
/// one, say, give the same outcome.
pub proof fn lemma_splits_agree(a: Seq<Seq<u8>>, b: Seq<Seq<u8>>)
    requires
        joined(a) == joined(b),
    ensures
        fed(a) == fed(b),
{
    lemma_any_split(a);
    lemma_any_split(b);
}

/// A parsed document ends inside its input.
pub proof fn lemma_document_bounded(s: Seq<u8>, more: bool)
    ensures
        bounded(document(s, more), s),
        bounded(value_at(s, more, 0), s),
{
    lemma_value_prefix(s, more, s, more, 0);
    lemma_value_ranged(s, more, 0);
    if let Res::Parsed(_, k) = value_at(s, more, 0) {
        lemma_run_end_bounds(s, k, ByteClass::Space);
    }
}


/// `(t, more_t)` is a way the input `(s, more_s)` can go on: if more bytes may
/// follow `s`, any longer input that starts with `s`, complete or not; if none
/// may, `s` itself, complete.
pub open spec fn continues(s: Seq<u8>, more_s: bool, t: Seq<u8>, more_t: bool) -> bool {
    is_prefix(s, t) && (more_s || (t =~= s && !more_t))
}

proof fn lemma_exponent_prefix(s: Seq<u8>, more: bool, t: Seq<u8>, more_t: bool, i: int, j: int)
    requires
        continues(s, more, t, more_t),
        0 <= j < s.len(),
        exponent(s, more, i, j) != Res::More,
    ensures
        exponent(t, more_t, i, j) == exponent(s, more, i, j),
{
    if more && (s[j] == LOWER_E || s[j] == UPPER_E) {
        let k = j + 1;
        if k < s.len() {
            let k2 = if is_sign(s[k]) { k + 1 } else { k };
            if k2 < s.len() && is_digit(s[k2]) {
                lemma_run_end_bounds(s, k2, ByteClass::Digit);
                if run_end(s, k2, ByteClass::Digit) < s.len() {
                    lemma_run_end_prefix(s, t, k2, ByteClass::Digit);
                }
            }
        }
    }
}

/// A number that the bytes seen so far settle is the same number in any continuation.
pub proof fn lemma_number_prefix(s: Seq<u8>, more: bool, t: Seq<u8>, more_t: bool, i: int)
    requires
        continues(s, more, t, more_t),
        0 <= i < s.len(),
        number(s, more, i) != Res::More,
    ensures
        number(t, more_t, i) == number(s, more, i),
{
    if more {
        let j0 = if is_sign(s[i]) { i + 1 } else { i };
        if j0 < s.len() && is_digit(s[j0]) {
            lemma_run_end_bounds(s, j0, ByteClass::Digit);
            let j1 = run_end(s, j0, ByteClass::Digit);
            if j1 < s.len() {
                lemma_run_end_prefix(s, t, j0, ByteClass::Digit);
                if s[j1] == DOT {
                    lemma_run_end_bounds(s, j1 + 1, ByteClass::Digit);
                    let j2 = run_end(s, j1 + 1, ByteClass::Digit);
                    if j2 < s.len() {
                        lemma_run_end_prefix(s, t, j1 + 1, ByteClass::Digit);
                        lemma_exponent_prefix(s, more, t, more_t, i, j2);
                    }
                } else {
                    lemma_exponent_prefix(s, more, t, more_t, i, j1);
                }
            }
        } else if j0 < s.len() && s[j0] == DOT && j0 + 1 < s.len() && is_digit(s[j0 + 1]) {
            lemma_run_end_bounds(s, j0 + 1, ByteClass::Digit);
            let j2 = run_end(s, j0 + 1, ByteClass::Digit);
            if j2 < s.len() {
                lemma_run_end_prefix(s, t, j0 + 1, ByteClass::Digit);
                lemma_exponent_prefix(s, more, t, more_t, i, j2);
            }
        }
    }
}

/// A string that the bytes seen so far settle is the same string in any continuation.
pub proof fn lemma_string_prefix(s: Seq<u8>, more: bool, t: Seq<u8>, more_t: bool, i: int, j: int)
    requires
        continues(s, more, t, more_t),
        string_from(s, more, i, j) != Res::More,
    ensures
        string_from(t, more_t, i, j) == string_from(s, more, i, j),
    decreases s.len() - j,
{
    if more && 0 <= j < s.len() {
        if s[j] == BACKSLASH {
            if j + 1 < s.len() && is_escape(s[j + 1]) {
                lemma_string_prefix(s, more, t, more_t, i, j + 2);
            }
        } else if s[j] != QUOTE {
            lemma_string_prefix(s, more, t, more_t, i, j + 1);
        }
    }
}

/// A keyword that the bytes seen so far settle is the same in any continuation.
pub proof fn lemma_keyword_prefix(
    s: Seq<u8>,
    more: bool,
    t: Seq<u8>,
    more_t: bool,
    i: int,
    l: Literal,
    k: int,
)
    requires
        continues(s, more, t, more_t),
        0 <= i,
        keyword_from(s, more, i, l, k) != Res::More,
    ensures
        keyword_from(t, more_t, i, l, k) == keyword_from(s, more, i, l, k),
    decreases word(l).len() - k,
{
    if more && 0 <= k < word(l).len() && i + k < s.len() && s[i + k] == word(l)[k] {
        lemma_keyword_prefix(s, more, t, more_t, i, l, k + 1);
    }
}

pub(crate) fn escape_byte(b: u8) -> (r: bool)
    ensures
        r == is_escape(b),
{
    b == QUOTE || b == BACKSLASH || b == SLASH || b == LOWER_B || b == LOWER_F || b == LOWER_N
        || b == LOWER_R || b == LOWER_T
}

pub(crate) fn word_byte(l: Literal, k: usize) -> (r: u8)
    requires
        k < word(l).len(),
    ensures
        r == word(l)[k as int],
{
    match l {
        Literal::True => if k == 0 { 0x74 } else if k == 1 { 0x72 } else if k == 2 { 0x75 } else { 0x65 },
        Literal::False => if k == 0 { 0x66 } else if k == 1 { 0x61 } else if k == 2 { 0x6c } else if k == 3 { 0x73 } else { 0x65 },
        Literal::Null => if k == 0 { 0x6e } else if k == 1 { 0x75 } else { 0x6c },
        Literal::Colon => 0x3a,
    }
}

pub(crate) fn word_len(l: Literal) -> (r: usize)
    ensures
        r == word(l).len(),
{
    match l {
        Literal::True => 4,
        Literal::False => 5,
        Literal::Null => 4,
        Literal::Colon => 1,
    }
}

} // verus!

//! Whitespace put before a document moves every offset and changes nothing else.
use vstd::prelude::*;
use crate::byterange::{in_class, lemma_run_end_skip, run_end, ByteClass};
use crate::grammar::{
    array_after, array_items, array_open, document, lemma_document_bounded, lemma_document_ranges, exponent, is_digit, is_sign, is_space,
    keyword_from, lemma_space_before_value, number, object_after, object_colon, object_field,
    object_open, object_value, starts_number, string, string_from, value_at, word, Literal,
    ParseError, Res, CLOSE_BRACE, CLOSE_BRACKET, COLON, COMMA, DOT, LOWER_F, LOWER_N, LOWER_T,
    OPEN_BRACE, OPEN_BRACKET, QUOTE,
};
use crate::value::{content, lemma_ranges_mono, ranges_within, Tree};

verus! {

/// The tree with every offset moved by `d`.
pub open spec fn shift_tree(t: Tree, d: int) -> Tree
    decreases t,
{
    match t {
        Tree::Number(a, b) => Tree::Number(a + d, b + d),
        Tree::Str(a, b) => Tree::Str(a + d, b + d),
        Tree::Bool(b) => Tree::Bool(b),
        Tree::Null => Tree::Null,
        Tree::Object(fs) => Tree::Object(
            Seq::new(
                fs.len(),
                |i: int|
                    if 0 <= i < fs.len() {
                        (fs[i].0 + d, fs[i].1 + d, shift_tree(fs[i].2, d))
                    } else {
                        (0, 0, Tree::Null)
                    },
            ),
        ),
        Tree::Array(vs) => Tree::Array(
            Seq::new(
                vs.len(),
                |i: int|
                    if 0 <= i < vs.len() {
                        shift_tree(vs[i], d)
                    } else {
                        Tree::Null
                    },
            ),
        ),
    }
}

pub open spec fn shift_items(vs: Seq<Tree>, d: int) -> Seq<Tree> {
    Seq::new(vs.len(), |i: int| shift_tree(vs[i], d))
}

pub open spec fn shift_fields(fs: Seq<(int, int, Tree)>, d: int) -> Seq<(int, int, Tree)> {
    Seq::new(fs.len(), |i: int| (fs[i].0 + d, fs[i].1 + d, shift_tree(fs[i].2, d)))
}

/// The error with its position moved by `d`.
pub open spec fn shift_err(e: ParseError, d: int) -> ParseError {
    match e {
        ParseError::UnexpectedEndOfInput => ParseError::UnexpectedEndOfInput,
        ParseError::UnexpectedToken(b, p) => ParseError::UnexpectedToken(b, (p + d) as usize),
        ParseError::ExpectedLiteral(l, p) => ParseError::ExpectedLiteral(l, (p + d) as usize),
        ParseError::InvalidEscape(b, p) => ParseError::InvalidEscape(b, (p + d) as usize),
    }
}

/// The result with every offset moved by `d`.
pub open spec fn shift_res(r: Res, d: int) -> Res {
    match r {
        Res::Parsed(t, k) => Res::Parsed(shift_tree(t, d), k + d),
        Res::Failed(e) => Res::Failed(shift_err(e, d)),
        Res::More => Res::More,
    }
}

/// `u` is `s` with `d` bytes put before it, and its offsets fit in a `usize`.
pub open spec fn shifted(u: Seq<u8>, s: Seq<u8>, d: int) -> bool {
    &&& 0 <= d
    &&& u.len() == s.len() + d
    &&& u.len() <= usize::MAX
    &&& forall|k: int| 0 <= k < s.len() ==> u[k + d] == #[trigger] s[k]
}

proof fn lemma_items_shift(vs: Seq<Tree>, v: Tree, d: int)
    ensures
        shift_items(vs.push(v), d) == shift_items(vs, d).push(shift_tree(v, d)),
        shift_tree(Tree::Array(vs), d) == Tree::Array(shift_items(vs, d)),
        shift_items(Seq::empty(), d) == Seq::<Tree>::empty(),
{
    assert(shift_items(vs.push(v), d) =~= shift_items(vs, d).push(shift_tree(v, d)));
    assert(shift_tree(Tree::Array(vs), d)->Array_0 =~= shift_items(vs, d));
    assert(shift_items(Seq::empty(), d) =~= Seq::<Tree>::empty());
}

proof fn lemma_fields_shift(fs: Seq<(int, int, Tree)>, a: int, b: int, v: Tree, d: int)
    ensures
        shift_fields(fs.push((a, b, v)), d) == shift_fields(fs, d).push(
            (a + d, b + d, shift_tree(v, d)),
        ),
        shift_tree(Tree::Object(fs), d) == Tree::Object(shift_fields(fs, d)),
        shift_fields(Seq::empty(), d) == Seq::<(int, int, Tree)>::empty(),
{
    assert(shift_fields(fs.push((a, b, v)), d) =~= shift_fields(fs, d).push(
        (a + d, b + d, shift_tree(v, d)),
    ));
    assert(shift_tree(Tree::Object(fs), d)->Object_0 =~= shift_fields(fs, d));
    assert(shift_fields(Seq::empty(), d) =~= Seq::<(int, int, Tree)>::empty());
}

proof fn lemma_run_end_shift(u: Seq<u8>, s: Seq<u8>, d: int, i: int, c: ByteClass)
    requires
        shifted(u, s, d),
        0 <= i <= s.len(),
    ensures
        run_end(u, i + d, c) == run_end(s, i, c) + d,
    decreases s.len() - i,
{
    if i < s.len() {
        assert(u[i + d] == s[i]);
        if in_class(c, s[i]) {
            lemma_run_end_shift(u, s, d, i + 1, c);
        }
    }
}

proof fn lemma_exponent_shift(u: Seq<u8>, s: Seq<u8>, d: int, more: bool, i: int, j: int)
    requires
        shifted(u, s, d),
        0 <= j < s.len(),
    ensures
        exponent(u, more, i + d, j + d) == shift_res(exponent(s, more, i, j), d),
{
    assert(u[j + d] == s[j]);
    let k = j + 1;
    if k < s.len() {
        assert(u[k + d] == s[k]);
        let k2 = if is_sign(s[k]) { k + 1 } else { k };
        if k2 < s.len() {
            assert(u[k2 + d] == s[k2]);
            lemma_run_end_shift(u, s, d, k2, ByteClass::Digit);
        }
    }
}

proof fn lemma_number_shift(u: Seq<u8>, s: Seq<u8>, d: int, more: bool, i: int)
    requires
        shifted(u, s, d),
        0 <= i < s.len(),
    ensures
        number(u, more, i + d) == shift_res(number(s, more, i), d),
{
    assert(u[i + d] == s[i]);
    let j0 = if is_sign(s[i]) { i + 1 } else { i };
    if j0 < s.len() {
        assert(u[j0 + d] == s[j0]);
        if is_digit(s[j0]) {
            lemma_run_end_shift(u, s, d, j0, ByteClass::Digit);
            crate::byterange::lemma_run_end_bounds(s, j0, ByteClass::Digit);
            let j1 = run_end(s, j0, ByteClass::Digit);
            if j1 < s.len() {
                assert(u[j1 + d] == s[j1]);
                if s[j1] == DOT {
                    lemma_run_end_shift(u, s, d, j1 + 1, ByteClass::Digit);
                    crate::byterange::lemma_run_end_bounds(s, j1 + 1, ByteClass::Digit);
                    let j2 = run_end(s, j1 + 1, ByteClass::Digit);
                    if j2 < s.len() {
                        lemma_exponent_shift(u, s, d, more, i, j2);
                    }
                } else {
                    lemma_exponent_shift(u, s, d, more, i, j1);
                }
            }
        } else if j0 + 1 < s.len() && s[j0] == DOT {
            assert(u[j0 + 1 + d] == s[j0 + 1]);
            lemma_run_end_shift(u, s, d, j0 + 1, ByteClass::Digit);
            crate::byterange::lemma_run_end_bounds(s, j0 + 1, ByteClass::Digit);
            let j2 = run_end(s, j0 + 1, ByteClass::Digit);
            if j2 < s.len() {
                lemma_exponent_shift(u, s, d, more, i, j2);
            }
        }
    }
}

proof fn lemma_string_shift(u: Seq<u8>, s: Seq<u8>, d: int, more: bool, i: int, j: int)
    requires
        shifted(u, s, d),
        0 <= j,
    ensures
        string_from(u, more, i + d, j + d) == shift_res(string_from(s, more, i, j), d),
    decreases s.len() - j,
{
    if j < s.len() {
        assert(u[j + d] == s[j]);
        if s[j] == crate::grammar::BACKSLASH {
            if j + 1 < s.len() {
                assert(u[j + 1 + d] == s[j + 1]);
                lemma_string_shift(u, s, d, more, i, j + 2);
            }
        } else if s[j] != QUOTE {
            lemma_string_shift(u, s, d, more, i, j + 1);
        }
    }
}

proof fn lemma_keyword_shift(u: Seq<u8>, s: Seq<u8>, d: int, more: bool, i: int, l: Literal, k: int)
    requires
        shifted(u, s, d),
        0 <= i,
        0 <= k,
    ensures
        keyword_from(u, more, i + d, l, k) == shift_res(keyword_from(s, more, i, l, k), d),
    decreases word(l).len() - k,
{
    if k < word(l).len() && i + k < s.len() {
        assert(u[i + k + d] == s[i + k]);
        lemma_keyword_shift(u, s, d, more, i, l, k + 1);
    }
}


proof fn lemma_value_shift(u: Seq<u8>, s: Seq<u8>, d: int, more: bool, i: int)
    requires
        shifted(u, s, d),
        0 <= i,
    ensures
        value_at(u, more, i + d) == shift_res(value_at(s, more, i), d),
    decreases s.len() - i, 0int,
{
    if i < s.len() {
        assert(u[i + d] == s[i]);
        if is_space(s[i]) {
            lemma_value_shift(u, s, d, more, i + 1);
        } else if s[i] == OPEN_BRACE {
            lemma_object_open_shift(u, s, d, more, i + 1);
        } else if s[i] == OPEN_BRACKET {
            lemma_array_open_shift(u, s, d, more, i + 1);
        } else if s[i] == QUOTE {
            lemma_string_shift(u, s, d, more, i, i + 1);
        } else if s[i] == LOWER_T {
            lemma_keyword_shift(u, s, d, more, i, Literal::True, 0);
        } else if s[i] == LOWER_F {
            lemma_keyword_shift(u, s, d, more, i, Literal::False, 0);
        } else if s[i] == LOWER_N {
            lemma_keyword_shift(u, s, d, more, i, Literal::Null, 0);
        } else if starts_number(s[i]) {
            lemma_number_shift(u, s, d, more, i);
        }
    }
}

proof fn lemma_array_open_shift(u: Seq<u8>, s: Seq<u8>, d: int, more: bool, i: int)
    requires
        shifted(u, s, d),
        0 <= i,
    ensures
        array_open(u, more, i + d) == shift_res(array_open(s, more, i), d),
    decreases s.len() - i, 2int,
{
    if i < s.len() {
        assert(u[i + d] == s[i]);
        lemma_items_shift(Seq::empty(), Tree::Null, d);
        if is_space(s[i]) {
            lemma_array_open_shift(u, s, d, more, i + 1);
        } else if s[i] != CLOSE_BRACKET {
            lemma_array_items_shift(u, s, d, more, Seq::empty(), i);
        }
    }
}

proof fn lemma_array_items_shift(u: Seq<u8>, s: Seq<u8>, d: int, more: bool, items: Seq<Tree>, i: int)
    requires
        shifted(u, s, d),
        0 <= i,
    ensures
        array_items(u, more, shift_items(items, d), i + d) == shift_res(
            array_items(s, more, items, i),
            d,
        ),
    decreases s.len() - i, 1int,
{
    lemma_value_shift(u, s, d, more, i);
    if let Res::Parsed(v, k) = value_at(s, more, i) {
        lemma_items_shift(items, v, d);
        if i < k <= s.len() {
            lemma_array_after_shift(u, s, d, more, items.push(v), k);
        }
    }
}

proof fn lemma_array_after_shift(u: Seq<u8>, s: Seq<u8>, d: int, more: bool, items: Seq<Tree>, k: int)
    requires
        shifted(u, s, d),
        0 <= k,
    ensures
        array_after(u, more, shift_items(items, d), k + d) == shift_res(
            array_after(s, more, items, k),
            d,
        ),
    decreases s.len() - k, 0int,
{
    if k < s.len() {
        assert(u[k + d] == s[k]);
        lemma_items_shift(items, Tree::Null, d);
        if is_space(s[k]) {
            lemma_array_after_shift(u, s, d, more, items, k + 1);
        } else if s[k] == COMMA {
            lemma_array_items_shift(u, s, d, more, items, k + 1);
        }
    }
}

proof fn lemma_object_open_shift(u: Seq<u8>, s: Seq<u8>, d: int, more: bool, i: int)
    requires
        shifted(u, s, d),
        0 <= i,
    ensures
        object_open(u, more, i + d) == shift_res(object_open(s, more, i), d),
    decreases s.len() - i, 2int,
{
    if i < s.len() {
        assert(u[i + d] == s[i]);
        lemma_fields_shift(Seq::empty(), 0, 0, Tree::Null, d);
        if is_space(s[i]) {
            lemma_object_open_shift(u, s, d, more, i + 1);
        } else if s[i] != CLOSE_BRACE {
            lemma_object_field_shift(u, s, d, more, Seq::empty(), i);
        }
    }
}

proof fn lemma_object_field_shift(
    u: Seq<u8>,
    s: Seq<u8>,
    d: int,
    more: bool,
    fields: Seq<(int, int, Tree)>,
    i: int,
)
    requires
        shifted(u, s, d),
        0 <= i,
    ensures
        object_field(u, more, shift_fields(fields, d), i + d) == shift_res(
            object_field(s, more, fields, i),
            d,
        ),
    decreases s.len() - i, 1int,
{
    if i < s.len() {
        assert(u[i + d] == s[i]);
        if is_space(s[i]) {
            lemma_object_field_shift(u, s, d, more, fields, i + 1);
        } else if s[i] == QUOTE {
            lemma_string_shift(u, s, d, more, i, i + 1);
            if let Res::Parsed(_, k) = string(s, more, i) {
                if i + 2 <= k <= s.len() {
                    lemma_object_colon_shift(u, s, d, more, fields, i + 1, k - 1, k);
                }
            }
        }
    }
}

proof fn lemma_object_colon_shift(
    u: Seq<u8>,
    s: Seq<u8>,
    d: int,
    more: bool,
    fields: Seq<(int, int, Tree)>,
    a: int,
    b: int,
    k: int,
)
    requires
        shifted(u, s, d),
        0 <= k,
    ensures
        object_colon(u, more, shift_fields(fields, d), a + d, b + d, k + d) == shift_res(
            object_colon(s, more, fields, a, b, k),
            d,
        ),
    decreases s.len() - k, 0int,
{
    if k < s.len() {
        assert(u[k + d] == s[k]);
        if is_space(s[k]) {
            lemma_object_colon_shift(u, s, d, more, fields, a, b, k + 1);
        } else if s[k] == COLON {
            lemma_object_value_shift(u, s, d, more, fields, a, b, k + 1);
        }
    }
}

proof fn lemma_object_value_shift(
    u: Seq<u8>,
    s: Seq<u8>,
    d: int,
    more: bool,
    fields: Seq<(int, int, Tree)>,
    a: int,
    b: int,
    i: int,
)
    requires
        shifted(u, s, d),
        0 <= i,
    ensures
        object_value(u, more, shift_fields(fields, d), a + d, b + d, i + d) == shift_res(
            object_value(s, more, fields, a, b, i),
            d,
        ),
    decreases s.len() - i, 1int,
{
    lemma_value_shift(u, s, d, more, i);
    if let Res::Parsed(v, k) = value_at(s, more, i) {
        lemma_fields_shift(fields, a, b, v, d);
        if i < k <= s.len() {
            lemma_object_after_shift(u, s, d, more, fields.push((a, b, v)), k);
        }
    }
}

proof fn lemma_object_after_shift(
    u: Seq<u8>,
    s: Seq<u8>,
    d: int,
    more: bool,
    fields: Seq<(int, int, Tree)>,
    k: int,
)
    requires
        shifted(u, s, d),
        0 <= k,
    ensures
        object_after(u, more, shift_fields(fields, d), k + d) == shift_res(
            object_after(s, more, fields, k),
            d,
        ),
    decreases s.len() - k, 0int,
{
    if k < s.len() {
        assert(u[k + d] == s[k]);
        lemma_fields_shift(fields, 0, 0, Tree::Null, d);
        if is_space(s[k]) {
            lemma_object_after_shift(u, s, d, more, fields, k + 1);
        } else if s[k] == COMMA {
            lemma_object_field_shift(u, s, d, more, fields, k + 1);
        }
    }
}

/// Whitespace put before a document changes nothing but offsets: the parse
/// tree is the same with every range moved by the whitespace's length, the
/// end moves by as much, and so does the position of an error.
pub proof fn lemma_leading_whitespace(w: Seq<u8>, s: Seq<u8>, more: bool)
    requires
        forall|k: int| 0 <= k < w.len() ==> is_space(#[trigger] w[k]),
        w.len() + s.len() <= usize::MAX,
    ensures
        document(w + s, more) == shift_res(document(s, more), w.len() as int),
{
    let u = w + s;
    let d = w.len() as int;
    assert forall|k: int| 0 <= k < s.len() implies u[k + d] == #[trigger] s[k] by {}
    assert forall|k: int| 0 <= k < d implies in_class(ByteClass::Space, #[trigger] u[k]) by {
        assert(u[k] == w[k]);
    }
    lemma_run_end_skip(u, 0, d, ByteClass::Space);
    crate::byterange::lemma_run_end_bounds(u, d, ByteClass::Space);
    lemma_space_before_value(u, more, 0);
    lemma_space_before_value(u, more, d);
    lemma_value_shift(u, s, d, more, 0);
    lemma_document_bounded(s, more);
    lemma_document_ranges(s, more);
    if let Res::Parsed(_, k) = value_at(s, more, 0) {
        lemma_run_end_shift(u, s, d, k, ByteClass::Space);
    }
}


proof fn lemma_content_shift(t: Tree, u: Seq<u8>, s: Seq<u8>, d: int)
    requires
        shifted(u, s, d),
        ranges_within(t, s.len() as int),
    ensures
        content(shift_tree(t, d), u) == content(t, s),
    decreases t,
{
    match t {
        Tree::Number(a, b) => {
            assert forall|j: int| 0 <= j < b - a implies u.subrange(a + d, b + d)[j] == s.subrange(a, b)[j] by {
                assert(u[a + j + d] == s[a + j]);
            }
            assert(u.subrange(a + d, b + d) =~= s.subrange(a, b));
        },
        Tree::Str(a, b) => {
            assert forall|j: int| 0 <= j < b - a implies u.subrange(a + d, b + d)[j] == s.subrange(a, b)[j] by {
                assert(u[a + j + d] == s[a + j]);
            }
            assert(u.subrange(a + d, b + d) =~= s.subrange(a, b));
        },
        Tree::Object(fs) => {
            assert forall|i: int| 0 <= i < fs.len() implies u.subrange(fs[i].0 + d, fs[i].1 + d) == s.subrange(fs[i].0, fs[i].1)
                && content(shift_tree(fs[i].2, d), u) == content(fs[i].2, s) by {
                let (a, b) = (fs[i].0, fs[i].1);
                assert(0 <= a <= b <= s.len());
                assert forall|j: int| 0 <= j < b - a implies u.subrange(a + d, b + d)[j] == s.subrange(a, b)[j] by {
                    assert(u[a + j + d] == s[a + j]);
                }
                assert(u.subrange(a + d, b + d) =~= s.subrange(a, b));
                assert(decreases_to!(t => fs));
                assert(decreases_to!(fs => fs[i]));
                assert(decreases_to!(fs[i] => fs[i].2));
                lemma_content_shift(fs[i].2, u, s, d);
            }
            assert(content(shift_tree(t, d), u)->Object_0 =~= content(t, s)->Object_0);
        },
        Tree::Array(vs) => {
            assert forall|i: int| 0 <= i < vs.len() implies content(shift_tree(vs[i], d), u) == content(vs[i], s) by {
                assert(decreases_to!(t => vs));
                assert(decreases_to!(vs => vs[i]));
                lemma_content_shift(vs[i], u, s, d);
            }
            assert(content(shift_tree(t, d), u)->Array_0 =~= content(t, s)->Array_0);
        },
        _ => {},
    }
}

/// Whitespace put before a document does not change the parsed value; an
/// error keeps its kind and moves by the whitespace's length; a document that
/// needs more bytes still does.
pub proof fn lemma_leading_whitespace_value(w: Seq<u8>, s: Seq<u8>, more: bool)
    requires
        forall|k: int| 0 <= k < w.len() ==> is_space(#[trigger] w[k]),
        w.len() + s.len() <= usize::MAX,
    ensures
        document(s, more) matches Res::Parsed(t, _) ==> (document(w + s, more) matches Res::Parsed(
            t2,
            _,
        ) && content(t2, w + s) == content(t, s)),
        document(s, more) matches Res::Failed(e) ==> document(w + s, more) == Res::Failed(
            shift_err(e, w.len() as int),
        ),
        document(s, more) is More ==> document(w + s, more) is More,
{
    lemma_leading_whitespace(w, s, more);
    lemma_document_ranges(s, more);
    lemma_document_bounded(s, more);
    if let Res::Parsed(t, k) = document(s, more) {
        let u = w + s;
        let d = w.len() as int;
        assert forall|j: int| 0 <= j < s.len() implies u[j + d] == #[trigger] s[j] by {}
        lemma_ranges_mono(t, k, s.len() as int);
        lemma_content_shift(t, u, s, d);
    }
}

} // verus!

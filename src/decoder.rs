//! The resumable parser: an explicit stack of pending rules over a growing buffer.
use vstd::prelude::*;
use crate::byterange::{
    bytes_from_vec, bytes_view, in_class, is_prefix, lemma_run_end_bounds, lemma_run_end_prefix,
    lemma_run_end_skip, run_end, ByteClass,
    BytesBuf,
};
use crate::grammar::{
    array_after, array_items, array_open, continues, document, escape_byte, keyword,
    keyword_from, num_exp, num_frac, num_int, exponent, object_after, object_colon, object_field,
    object_open, object_value, starts_number, string_from, trailing, value_at, word, word_byte,
    word_len, Literal, ParseError, Res, BACKSLASH, LOWER_E, UPPER_E, CLOSE_BRACE, CLOSE_BRACKET, COLON, COMMA,
    DOT, LOWER_F, LOWER_N, LOWER_T, MINUS, OPEN_BRACE, OPEN_BRACKET, PLUS, QUOTE,
};
use crate::value::{content, lemma_ranges_mono, materialize, ranges_within, Node, Tree, Value};

verus! {

/// A rule waiting for the value of one of its parts.
pub enum Frame {
    /// An array holding `items`, whose next element starts at the offset.
    Items(Vec<Node>, usize),
    /// An object holding the fields so far, waiting for the value of the key
    /// `[a, b)` that starts at the last offset.
    Field(Vec<(usize, usize, Node)>, usize, usize, usize),
    /// An object holding the fields so far, waiting for the key whose
    /// opening quote is at the offset.
    Key(Vec<(usize, usize, Node)>, usize),
}

/// Where the parser stands: the rule to go on with, or a finished value.
pub enum Mode {
    Value(usize),
    ArrayOpen(usize),
    ArrayAfter(Vec<Node>, usize),
    ObjectOpen(usize),
    ObjectField(Vec<(usize, usize, Node)>, usize),
    ObjectColon(Vec<(usize, usize, Node)>, usize, usize, usize),
    ObjectAfter(Vec<(usize, usize, Node)>, usize),
    Finished(Node, usize),
    /// Inside a string whose opening quote is at the first offset; the bytes
    /// before the second offset have been checked.
    Str(usize, usize),
    /// Inside a keyword that starts at the first offset, of which as many
    /// bytes as the last number have matched.
    Word(usize, Literal, usize),
    /// Inside the integer digits of a number that starts at the first offset,
    /// checked up to the second.
    NumInt(usize, usize),
    /// Inside the fraction digits of a number, checked up to the second offset.
    NumFrac(usize, usize),
    /// At the byte after a number's mantissa, where an exponent may start.
    NumExpo(usize, usize),
    /// Inside the exponent digits of a number, checked up to the second offset.
    NumExpDigits(usize, usize),
}

pub open spec fn items_view(v: Seq<Node>) -> Seq<Tree> {
    Seq::new(v.len(), |i: int| v[i]@)
}

pub open spec fn fields_view(v: Seq<(usize, usize, Node)>) -> Seq<(int, int, Tree)> {
    Seq::new(v.len(), |i: int| (v[i].0 as int, v[i].1 as int, v[i].2@))
}

/// What the rule that a mode stands for gives on `(t, more)`.
pub open spec fn mode_res(m: Mode, t: Seq<u8>, more: bool) -> Res {
    match m {
        Mode::Value(i) => value_at(t, more, i as int),
        Mode::ArrayOpen(i) => array_open(t, more, i as int),
        Mode::ArrayAfter(items, k) => array_after(t, more, items_view(items@), k as int),
        Mode::ObjectOpen(i) => object_open(t, more, i as int),
        Mode::ObjectField(fs, i) => object_field(t, more, fields_view(fs@), i as int),
        Mode::ObjectColon(fs, a, b, k) => object_colon(
            t,
            more,
            fields_view(fs@),
            a as int,
            b as int,
            k as int,
        ),
        Mode::ObjectAfter(fs, k) => object_after(t, more, fields_view(fs@), k as int),
        Mode::Finished(n, k) => Res::Parsed(n@, k as int),
        Mode::Str(i, j) => string_from(t, more, i as int, j as int),
        Mode::Word(i, l, k) => keyword_from(t, more, i as int, l, k as int),
        Mode::NumInt(i, j) => num_int(t, more, i as int, j as int),
        Mode::NumFrac(i, j) => num_frac(t, more, i as int, j as int),
        Mode::NumExpo(i, j) => exponent(t, more, i as int, j as int),
        Mode::NumExpDigits(i, j) => num_exp(t, more, i as int, j as int),
    }
}

/// What a waiting rule gives once its part has given `r`.
pub open spec fn frame_res(f: Frame, r: Res, t: Seq<u8>, more: bool) -> Res {
    match r {
        Res::Parsed(v, k) => match f {
            Frame::Items(items, i) => if i < k <= t.len() {
                array_after(t, more, items_view(items@).push(v), k)
            } else {
                Res::Failed(ParseError::UnexpectedEndOfInput)
            },
            Frame::Field(fs, a, b, i) => if i < k <= t.len() {
                object_after(t, more, fields_view(fs@).push((a as int, b as int, v)), k)
            } else {
                Res::Failed(ParseError::UnexpectedEndOfInput)
            },
            Frame::Key(fs, i) => if i + 2 <= k <= t.len() {
                object_colon(t, more, fields_view(fs@), i + 1, k - 1, k)
            } else {
                Res::Failed(ParseError::UnexpectedEndOfInput)
            },
        },
        other => other,
    }
}

/// What the whole stack gives once its innermost rule has given `r`.
pub open spec fn stack_res(frames: Seq<Frame>, r: Res, t: Seq<u8>, more: bool) -> Res
    decreases frames.len(),
{
    if frames.len() == 0 {
        r
    } else {
        stack_res(frames.drop_last(), frame_res(frames.last(), r, t, more), t, more)
    }
}

pub open spec fn config_res(frames: Seq<Frame>, m: Mode, t: Seq<u8>, more: bool) -> Res {
    stack_res(frames, mode_res(m, t, more), t, more)
}

/// What the document gives from this stack and mode: the value, then the whitespace after it.
pub open spec fn doc_res(frames: Seq<Frame>, m: Mode, t: Seq<u8>, more: bool) -> Res {
    trailing(config_res(frames, m, t, more), t, more)
}

/// The stack and mode stand for the whole document, on every way the input `(s, more)` can go on.
pub open spec fn resumes(frames: Seq<Frame>, m: Mode, s: Seq<u8>, more: bool) -> bool {
    forall|t: Seq<u8>, more_t: bool|
        continues(s, more, t, more_t) ==> #[trigger] doc_res(frames, m, t, more_t) == document(
            t,
            more_t,
        )
}

pub open spec fn items_within(v: Seq<Node>, n: int) -> bool {
    forall|i: int| 0 <= i < v.len() ==> ranges_within(#[trigger] v[i]@, n)
}

pub open spec fn fields_within(v: Seq<(usize, usize, Node)>, n: int) -> bool {
    forall|i: int|
        0 <= i < v.len() ==> (#[trigger] v[i]).0 <= v[i].1 <= n && ranges_within(v[i].2@, n)
}

pub open spec fn frame_within(f: Frame, n: int) -> bool {
    match f {
        Frame::Items(items, i) => items_within(items@, n) && i <= n,
        Frame::Field(fs, a, b, i) => fields_within(fs@, n) && a <= b <= n && i <= n,
        Frame::Key(fs, i) => fields_within(fs@, n) && i <= n,
    }
}

pub open spec fn mode_pos(m: Mode) -> int {
    match m {
        Mode::Value(i) => i as int,
        Mode::ArrayOpen(i) => i as int,
        Mode::ArrayAfter(_, k) => k as int,
        Mode::ObjectOpen(i) => i as int,
        Mode::ObjectField(_, i) => i as int,
        Mode::ObjectColon(_, _, _, k) => k as int,
        Mode::ObjectAfter(_, k) => k as int,
        Mode::Finished(_, k) => k as int,
        Mode::Str(_, j) => j as int,
        Mode::Word(i, _, k) => i + k,
        Mode::NumInt(_, j) => j as int,
        Mode::NumFrac(_, j) => j as int,
        Mode::NumExpo(_, j) => j as int,
        Mode::NumExpDigits(_, j) => j as int,
    }
}

pub open spec fn mode_rank(m: Mode) -> int {
    match m {
        Mode::ArrayOpen(_) => 6,
        Mode::ObjectOpen(_) => 6,
        Mode::Value(_) => 5,
        Mode::NumInt(_, _) => 4,
        Mode::NumFrac(_, _) => 4,
        Mode::Word(_, _, _) => 3,
        Mode::NumExpo(_, _) => 3,
        Mode::NumExpDigits(_, _) => 3,
        Mode::Finished(_, _) => 2,
        _ => 0,
    }
}

pub open spec fn mode_within(m: Mode, n: int) -> bool {
    &&& mode_pos(m) <= n
    &&& match m {
        Mode::ArrayAfter(items, _) => items_within(items@, n),
        Mode::ObjectField(fs, _) => fields_within(fs@, n),
        Mode::ObjectColon(fs, a, b, _) => fields_within(fs@, n) && a <= b <= n,
        Mode::ObjectAfter(fs, _) => fields_within(fs@, n),
        Mode::Finished(node, _) => ranges_within(node@, n),
        Mode::Str(i, j) => i + 1 <= j,
        Mode::Word(_, l, k) => l != Literal::Colon && k <= word(l).len(),
        Mode::NumInt(i, j) => i <= j,
        Mode::NumFrac(i, j) => i <= j,
        Mode::NumExpo(i, j) => i <= j < n,
        Mode::NumExpDigits(i, j) => i <= j,
        _ => true,
    }
}

pub open spec fn within(frames: Seq<Frame>, m: Mode, n: int) -> bool {
    &&& mode_within(m, n)
    &&& forall|i: int| 0 <= i < frames.len() ==> frame_within(#[trigger] frames[i], n)
}

/// A result that is not a value goes up the stack unchanged.
pub proof fn lemma_stack_passes(frames: Seq<Frame>, r: Res, t: Seq<u8>, more: bool)
    requires
        !(r is Parsed),
    ensures
        stack_res(frames, r, t, more) == r,
    decreases frames.len(),
{
    if frames.len() > 0 {
        lemma_stack_passes(frames.drop_last(), r, t, more);
    }
}

proof fn lemma_array_view(items: Vec<Node>)
    ensures
        Node::Array(items)@ == Tree::Array(items_view(items@)),
{
    assert(Node::Array(items)@->Array_0 =~= items_view(items@));
}

proof fn lemma_object_view(fs: Vec<(usize, usize, Node)>)
    ensures
        Node::Object(fs)@ == Tree::Object(fields_view(fs@)),
{
    assert(Node::Object(fs)@->Object_0 =~= fields_view(fs@));
}

/// A run of plain bytes inside a string can be passed over at once.
proof fn lemma_string_plain_run(t: Seq<u8>, more: bool, i: int, j: int, e: int)
    requires
        0 <= j <= e <= t.len(),
        forall|k: int| j <= k < e ==> in_class(ByteClass::Plain, #[trigger] t[k]),
    ensures
        string_from(t, more, i, j) == string_from(t, more, i, e),
    decreases e - j,
{
    if j < e {
        lemma_string_plain_run(t, more, i, j + 1, e);
    }
}

/// How a run of the parser over the bytes at hand ended.
pub enum Step {
    /// The bytes ran out; the mode is where to go on.
    Suspended(Mode),
    Done(Node, usize),
    Failed(ParseError),
}


proof fn lemma_step(frames: Seq<Frame>, m0: Mode, m1: Mode, s: Seq<u8>, more: bool)
    requires
        resumes(frames, m0, s, more),
        forall|t: Seq<u8>, q: bool|
            continues(s, more, t, q) ==> #[trigger] mode_res(m1, t, q) == mode_res(m0, t, q),
    ensures
        resumes(frames, m1, s, more),
{
    assert forall|t: Seq<u8>, q: bool| continues(s, more, t, q) implies #[trigger] doc_res(
        frames,
        m1,
        t,
        q,
    ) == document(t, q) by {
        assert(doc_res(frames, m0, t, q) == document(t, q));
        assert(mode_res(m1, t, q) == mode_res(m0, t, q));
    }
}

proof fn lemma_push(frames: Seq<Frame>, f: Frame, m0: Mode, m1: Mode, s: Seq<u8>, more: bool)
    requires
        resumes(frames, m0, s, more),
        forall|t: Seq<u8>, q: bool|
            continues(s, more, t, q) ==> frame_res(f, #[trigger] mode_res(m1, t, q), t, q)
                == mode_res(m0, t, q),
    ensures
        resumes(frames.push(f), m1, s, more),
{
    assert(frames.push(f).drop_last() =~= frames);
    assert forall|t: Seq<u8>, q: bool| continues(s, more, t, q) implies #[trigger] doc_res(
        frames.push(f),
        m1,
        t,
        q,
    ) == document(t, q) by {
        assert(doc_res(frames, m0, t, q) == document(t, q));
        assert(frame_res(f, mode_res(m1, t, q), t, q) == mode_res(m0, t, q));
    }
}

proof fn lemma_pop(frames: Seq<Frame>, f: Frame, node: Node, k: usize, m1: Mode, s: Seq<u8>, more: bool)
    requires
        resumes(frames.push(f), Mode::Finished(node, k), s, more),
        forall|t: Seq<u8>, q: bool|
            continues(s, more, t, q) ==> #[trigger] mode_res(m1, t, q) == frame_res(
                f,
                Res::Parsed(node@, k as int),
                t,
                q,
            ),
    ensures
        resumes(frames, m1, s, more),
{
    assert(frames.push(f).drop_last() =~= frames);
    assert forall|t: Seq<u8>, q: bool| continues(s, more, t, q) implies #[trigger] doc_res(
        frames,
        m1,
        t,
        q,
    ) == document(t, q) by {
        assert(doc_res(frames.push(f), Mode::Finished(node, k), t, q) == document(t, q));
        assert(mode_res(m1, t, q) == frame_res(f, Res::Parsed(node@, k as int), t, q));
    }
}

/// Where the current rule has failed on every way the input can go on, so has the document.
proof fn lemma_fail(frames: Seq<Frame>, m0: Mode, s: Seq<u8>, more: bool, e: ParseError)
    requires
        resumes(frames, m0, s, more),
        forall|t: Seq<u8>, q: bool|
            continues(s, more, t, q) ==> #[trigger] mode_res(m0, t, q) == Res::Failed(e),
    ensures
        forall|t: Seq<u8>, q: bool| continues(s, more, t, q) ==> #[trigger] document(t, q) == Res::Failed(e),
{
    assert forall|t: Seq<u8>, q: bool| continues(s, more, t, q) implies #[trigger] document(t, q)
        == Res::Failed(e) by {
        assert(doc_res(frames, m0, t, q) == document(t, q));
        lemma_stack_passes(frames, Res::Failed(e), t, q);
    }
}

/// Where the current rule needs more bytes, so does the document.
proof fn lemma_more(frames: Seq<Frame>, m0: Mode, s: Seq<u8>)
    requires
        resumes(frames, m0, s, true),
        mode_res(m0, s, true) == Res::More,
    ensures
        document(s, true) == Res::More,
{
    assert(continues(s, true, s, true));
    assert(doc_res(frames, m0, s, true) == document(s, true));
    lemma_stack_passes(frames, Res::More, s, true);
}

/// One step of the parser: the mode to go on with, or how the run ends.
pub enum Progress {
    Next(Mode),
    Stop(Step),
}

/// How a run may end, over the bytes `s` at hand, with `frames` left waiting.
pub open spec fn stopped(r: Step, frames: Seq<Frame>, s: Seq<u8>, more: bool) -> bool {
    match r {
        Step::Suspended(m) => {
            &&& more
            &&& resumes(frames, m, s, true)
            &&& within(frames, m, s.len() as int)
            &&& document(s, true) == Res::More
        },
        Step::Done(node, k) => {
            &&& forall|t: Seq<u8>, q: bool|
                continues(s, more, t, q) ==> #[trigger] document(t, q) == Res::Parsed(node@, k as int)
            &&& ranges_within(node@, s.len() as int)
            &&& k <= s.len()
        },
        Step::Failed(e) => forall|t: Seq<u8>, q: bool|
            continues(s, more, t, q) ==> #[trigger] document(t, q) == Res::Failed(e),
    }
}

/// A step from `m0` keeps the stack and mode standing for the document and
/// moves forward: past a byte, or to a lower rank at the same byte.
pub open spec fn progress_ok(r: Progress, frames: Seq<Frame>, m0: Mode, s: Seq<u8>, more: bool) -> bool {
    match r {
        Progress::Next(m) => {
            &&& resumes(frames, m, s, more)
            &&& within(frames, m, s.len() as int)
            &&& (mode_pos(m0) < mode_pos(m) || (mode_pos(m) == mode_pos(m0) && mode_rank(m) < mode_rank(m0)))
        },
        Progress::Stop(st) => stopped(st, frames, s, more),
    }
}

fn step_value(buf: &BytesBuf, frames: &mut Vec<Frame>, i: usize) -> (r: Progress)
    requires
        buf.wf(),
        resumes(old(frames)@, Mode::Value(i), buf.bytes(), buf.is_incremental()),
        within(old(frames)@, Mode::Value(i), buf.bytes().len() as int),
    ensures
        progress_ok(r, final(frames)@, Mode::Value(i), buf.bytes(), buf.is_incremental()),
{
    let ghost s = buf.bytes();
    let ghost p = buf.is_incremental();
    let n = buf.len();
    let more = buf.is_partial();
    let ghost m0 = Mode::Value(i);
    let mode: Mode;
    if i >= n {
        if more {
            proof { lemma_more(frames@, m0, s); }
            return Progress::Stop(Step::Suspended(Mode::Value(i)));
        }
        proof { lemma_fail(frames@, m0, s, p, ParseError::UnexpectedEndOfInput); }
        return Progress::Stop(Step::Failed(ParseError::UnexpectedEndOfInput));
    }
    let b = buf.byte_at(i);
    if ByteClass::Space.contains(b) {
        mode = Mode::Value(i + 1);
        proof {
            lemma_step(frames@, m0, mode, s, p);
        }
    } else if b == OPEN_BRACE {
        mode = Mode::ObjectOpen(i + 1);
        proof {
            lemma_step(frames@, m0, mode, s, p);
        }
    } else if b == OPEN_BRACKET {
        mode = Mode::ArrayOpen(i + 1);
        proof {
            lemma_step(frames@, m0, mode, s, p);
        }
    } else if b == QUOTE {
        mode = Mode::Str(i, i + 1);
        proof {
            lemma_step(frames@, m0, mode, s, p);
        }
    } else if b == LOWER_T || b == LOWER_F || b == LOWER_N {
        let l = if b == LOWER_T {
            Literal::True
        } else if b == LOWER_F {
            Literal::False
        } else {
            Literal::Null
        };
        mode = Mode::Word(i, l, 1);
        proof {
            assert forall|t: Seq<u8>, q: bool| continues(s, p, t, q) implies #[trigger] mode_res(mode, t, q) == mode_res(m0, t, q) by {
                assert(keyword(t, q, i as int, l) == keyword_from(t, q, i as int, l, 1));
            }
            lemma_step(frames@, m0, mode, s, p);
        }
    } else if ByteClass::Digit.contains(b) || b == PLUS || b == MINUS || b == DOT {
        let j0 = if b == PLUS || b == MINUS { i + 1 } else { i };
        if j0 >= n {
            if more {
                proof { lemma_more(frames@, m0, s); }
                return Progress::Stop(Step::Suspended(Mode::Value(i)));
            }
            proof { lemma_fail(frames@, m0, s, p, ParseError::UnexpectedEndOfInput); }
            return Progress::Stop(Step::Failed(ParseError::UnexpectedEndOfInput));
        }
        let c = buf.byte_at(j0);
        if ByteClass::Digit.contains(c) {
            mode = Mode::NumInt(i, j0);
            proof { lemma_step(frames@, m0, mode, s, p); }
        } else if c == DOT {
            let j1 = j0 + 1;
            if j1 >= n {
                if more {
                    proof { lemma_more(frames@, m0, s); }
                    return Progress::Stop(Step::Suspended(Mode::Value(i)));
                }
                proof { lemma_fail(frames@, m0, s, p, ParseError::UnexpectedEndOfInput); }
                return Progress::Stop(Step::Failed(ParseError::UnexpectedEndOfInput));
            }
            let dg = buf.byte_at(j1);
            if !ByteClass::Digit.contains(dg) {
                proof {
                    lemma_fail(frames@, m0, s, p, ParseError::UnexpectedToken(dg, j1));
                }
                return Progress::Stop(Step::Failed(ParseError::UnexpectedToken(dg, j1)));
            }
            mode = Mode::NumFrac(i, j1);
            proof {
                lemma_step(frames@, m0, mode, s, p);
            }
        } else {
            proof {
                lemma_fail(frames@, m0, s, p, ParseError::UnexpectedToken(c, j0));
            }
            return Progress::Stop(Step::Failed(ParseError::UnexpectedToken(c, j0)));
        }
    } else {
        proof { lemma_fail(frames@, m0, s, p, ParseError::UnexpectedToken(b, i)); }
        return Progress::Stop(Step::Failed(ParseError::UnexpectedToken(b, i)));
    }
    Progress::Next(mode)
}

fn step_string(buf: &BytesBuf, frames: &mut Vec<Frame>, i: usize, j: usize) -> (r: Progress)
    requires
        buf.wf(),
        resumes(old(frames)@, Mode::Str(i, j), buf.bytes(), buf.is_incremental()),
        within(old(frames)@, Mode::Str(i, j), buf.bytes().len() as int),
    ensures
        progress_ok(r, final(frames)@, Mode::Str(i, j), buf.bytes(), buf.is_incremental()),
{
    let ghost s = buf.bytes();
    let ghost p = buf.is_incremental();
    let n = buf.len();
    let more = buf.is_partial();
    let ghost m0 = Mode::Str(i, j);
    let mode: Mode;
    if j >= n {
        if more {
            proof { lemma_more(frames@, m0, s); }
            return Progress::Stop(Step::Suspended(Mode::Str(i, j)));
        }
        proof { lemma_fail(frames@, m0, s, p, ParseError::UnexpectedEndOfInput); }
        return Progress::Stop(Step::Failed(ParseError::UnexpectedEndOfInput));
    }
    let b = buf.byte_at(j);
    if b == QUOTE {
        let node = Node::Str(i + 1, j);
        mode = Mode::Finished(node, j + 1);
        proof {
            lemma_step(frames@, m0, mode, s, p);
        }
    } else if b == BACKSLASH {
        if j + 1 >= n {
            if more {
                proof { lemma_more(frames@, m0, s); }
                return Progress::Stop(Step::Suspended(Mode::Str(i, j)));
            }
            proof { lemma_fail(frames@, m0, s, p, ParseError::UnexpectedEndOfInput); }
            return Progress::Stop(Step::Failed(ParseError::UnexpectedEndOfInput));
        }
        let ep = j + 1;
        let e = buf.byte_at(ep);
        if !escape_byte(e) {
            proof {
                lemma_fail(frames@, m0, s, p, ParseError::InvalidEscape(e, ep));
            }
            return Progress::Stop(Step::Failed(ParseError::InvalidEscape(e, ep)));
        }
        mode = Mode::Str(i, j + 2);
        proof {
            lemma_step(frames@, m0, mode, s, p);
        }
    } else {
        // a run of plain bytes is taken in one scan
        let e = buf.run_end_at(j, ByteClass::Plain);
        mode = Mode::Str(i, e);
        proof {
            lemma_run_end_bounds(s, j as int, ByteClass::Plain);
            assert forall|t: Seq<u8>, q: bool| continues(s, p, t, q) implies #[trigger] mode_res(mode, t, q) == mode_res(m0, t, q) by {
                lemma_string_plain_run(t, q, i as int, j as int, e as int);
            }
            lemma_step(frames@, m0, mode, s, p);
        }
    }
    Progress::Next(mode)
}

fn step_word(buf: &BytesBuf, frames: &mut Vec<Frame>, i: usize, l: Literal, k: usize) -> (r: Progress)
    requires
        buf.wf(),
        resumes(old(frames)@, Mode::Word(i, l, k), buf.bytes(), buf.is_incremental()),
        within(old(frames)@, Mode::Word(i, l, k), buf.bytes().len() as int),
    ensures
        progress_ok(r, final(frames)@, Mode::Word(i, l, k), buf.bytes(), buf.is_incremental()),
{
    let ghost s = buf.bytes();
    let ghost p = buf.is_incremental();
    let n = buf.len();
    let more = buf.is_partial();
    let ghost m0 = Mode::Word(i, l, k);
    let mode: Mode;
    let len = word_len(l);
    if k >= len {
        let node = match l {
            Literal::True => Node::Bool(true),
            Literal::False => Node::Bool(false),
            _ => Node::Null,
        };
        mode = Mode::Finished(node, i + len);
        proof {
            lemma_step(frames@, m0, mode, s, p);
        }
    } else if i + k >= n {
        if more {
            proof { lemma_more(frames@, m0, s); }
            return Progress::Stop(Step::Suspended(Mode::Word(i, l, k)));
        }
        proof { lemma_fail(frames@, m0, s, p, ParseError::UnexpectedEndOfInput); }
        return Progress::Stop(Step::Failed(ParseError::UnexpectedEndOfInput));
    } else if buf.byte_at(i + k) != word_byte(l, k) {
        let at = i + k;
        proof {
            lemma_fail(frames@, m0, s, p, ParseError::ExpectedLiteral(l, at));
        }
        return Progress::Stop(Step::Failed(ParseError::ExpectedLiteral(l, at)));
    } else {
        mode = Mode::Word(i, l, k + 1);
        proof {
            lemma_step(frames@, m0, mode, s, p);
        }
    }
    Progress::Next(mode)
}

fn step_array_open(buf: &BytesBuf, frames: &mut Vec<Frame>, i: usize) -> (r: Progress)
    requires
        buf.wf(),
        resumes(old(frames)@, Mode::ArrayOpen(i), buf.bytes(), buf.is_incremental()),
        within(old(frames)@, Mode::ArrayOpen(i), buf.bytes().len() as int),
    ensures
        progress_ok(r, final(frames)@, Mode::ArrayOpen(i), buf.bytes(), buf.is_incremental()),
{
    let ghost s = buf.bytes();
    let ghost p = buf.is_incremental();
    let n = buf.len();
    let more = buf.is_partial();
    let ghost m0 = Mode::ArrayOpen(i);
    let mode: Mode;
    if i >= n {
        if more {
            proof { lemma_more(frames@, m0, s); }
            return Progress::Stop(Step::Suspended(Mode::ArrayOpen(i)));
        }
        proof { lemma_fail(frames@, m0, s, p, ParseError::UnexpectedEndOfInput); }
        return Progress::Stop(Step::Failed(ParseError::UnexpectedEndOfInput));
    }
    let b = buf.byte_at(i);
    if ByteClass::Space.contains(b) {
        mode = Mode::ArrayOpen(i + 1);
        proof {
            lemma_step(frames@, m0, mode, s, p);
        }
    } else if b == CLOSE_BRACKET {
        let empty: Vec<Node> = Vec::new();
        proof {
            lemma_array_view(empty);
            assert(items_view(empty@) =~= Seq::<Tree>::empty());
        }
        let node = Node::Array(empty);
        mode = Mode::Finished(node, i + 1);
        proof {
            lemma_step(frames@, m0, mode, s, p);
        }
    } else {
        let empty: Vec<Node> = Vec::new();
        proof {
            assert(items_view(empty@) =~= Seq::<Tree>::empty());
        }
        let f = Frame::Items(empty, i);
        mode = Mode::Value(i);
        proof {
            assert forall|t: Seq<u8>, q: bool| continues(s, p, t, q) implies frame_res(f, #[trigger] mode_res(mode, t, q), t, q) == mode_res(m0, t, q) by {
                assert(t[i as int] == s[i as int]);
                assert(array_open(t, q, i as int) == array_items(t, q, Seq::empty(), i as int));
            }
            lemma_push(frames@, f, m0, mode, s, p);
        }
        frames.push(f);
    }
    Progress::Next(mode)
}

fn step_array_after(buf: &BytesBuf, frames: &mut Vec<Frame>, items: Vec<Node>, k: usize) -> (r: Progress)
    requires
        buf.wf(),
        resumes(old(frames)@, Mode::ArrayAfter(items, k), buf.bytes(), buf.is_incremental()),
        within(old(frames)@, Mode::ArrayAfter(items, k), buf.bytes().len() as int),
    ensures
        progress_ok(r, final(frames)@, Mode::ArrayAfter(items, k), buf.bytes(), buf.is_incremental()),
{
    let ghost s = buf.bytes();
    let ghost p = buf.is_incremental();
    let n = buf.len();
    let more = buf.is_partial();
    let ghost m0 = Mode::ArrayAfter(items, k);
    let mode: Mode;
    if k >= n {
        if more {
            proof { lemma_more(frames@, m0, s); }
            return Progress::Stop(Step::Suspended(Mode::ArrayAfter(items, k)));
        }
        proof { lemma_fail(frames@, m0, s, p, ParseError::UnexpectedEndOfInput); }
        return Progress::Stop(Step::Failed(ParseError::UnexpectedEndOfInput));
    }
    let b = buf.byte_at(k);
    if ByteClass::Space.contains(b) {
        mode = Mode::ArrayAfter(items, k + 1);
        proof {
            lemma_step(frames@, m0, mode, s, p);
        }
    } else if b == COMMA {
        let ghost iv = items_view(items@);
        let f = Frame::Items(items, k + 1);
        mode = Mode::Value(k + 1);
        proof {
            assert forall|t: Seq<u8>, q: bool| continues(s, p, t, q) implies frame_res(f, #[trigger] mode_res(mode, t, q), t, q) == mode_res(m0, t, q) by {
                assert(t[k as int] == s[k as int]);
                assert(array_after(t, q, iv, k as int) == array_items(t, q, iv, k + 1));
            }
            lemma_push(frames@, f, m0, mode, s, p);
        }
        frames.push(f);
    } else if b == CLOSE_BRACKET {
        proof { lemma_array_view(items); }
        let node = Node::Array(items);
        mode = Mode::Finished(node, k + 1);
        proof {
            lemma_step(frames@, m0, mode, s, p);
        }
    } else {
        proof {
            lemma_fail(frames@, m0, s, p, ParseError::UnexpectedToken(b, k));
        }
        return Progress::Stop(Step::Failed(ParseError::UnexpectedToken(b, k)));
    }
    Progress::Next(mode)
}

fn step_object_open(buf: &BytesBuf, frames: &mut Vec<Frame>, i: usize) -> (r: Progress)
    requires
        buf.wf(),
        resumes(old(frames)@, Mode::ObjectOpen(i), buf.bytes(), buf.is_incremental()),
        within(old(frames)@, Mode::ObjectOpen(i), buf.bytes().len() as int),
    ensures
        progress_ok(r, final(frames)@, Mode::ObjectOpen(i), buf.bytes(), buf.is_incremental()),
{
    let ghost s = buf.bytes();
    let ghost p = buf.is_incremental();
    let n = buf.len();
    let more = buf.is_partial();
    let ghost m0 = Mode::ObjectOpen(i);
    let mode: Mode;
    if i >= n {
        if more {
            proof { lemma_more(frames@, m0, s); }
            return Progress::Stop(Step::Suspended(Mode::ObjectOpen(i)));
        }
        proof { lemma_fail(frames@, m0, s, p, ParseError::UnexpectedEndOfInput); }
        return Progress::Stop(Step::Failed(ParseError::UnexpectedEndOfInput));
    }
    let b = buf.byte_at(i);
    if ByteClass::Space.contains(b) {
        mode = Mode::ObjectOpen(i + 1);
        proof {
            lemma_step(frames@, m0, mode, s, p);
        }
    } else if b == CLOSE_BRACE {
        let empty: Vec<(usize, usize, Node)> = Vec::new();
        proof {
            lemma_object_view(empty);
            assert(fields_view(empty@) =~= Seq::<(int, int, Tree)>::empty());
        }
        let node = Node::Object(empty);
        mode = Mode::Finished(node, i + 1);
        proof {
            lemma_step(frames@, m0, mode, s, p);
        }
    } else {
        proof {
            assert(fields_view(Seq::<(usize, usize, Node)>::empty()) =~= Seq::<(int, int, Tree)>::empty());
        }
        mode = Mode::ObjectField(Vec::new(), i);
        proof {
            lemma_step(frames@, m0, mode, s, p);
        }
    }
    Progress::Next(mode)
}

fn step_object_field(buf: &BytesBuf, frames: &mut Vec<Frame>, fs: Vec<(usize, usize, Node)>, i: usize) -> (r: Progress)
    requires
        buf.wf(),
        resumes(old(frames)@, Mode::ObjectField(fs, i), buf.bytes(), buf.is_incremental()),
        within(old(frames)@, Mode::ObjectField(fs, i), buf.bytes().len() as int),
    ensures
        progress_ok(r, final(frames)@, Mode::ObjectField(fs, i), buf.bytes(), buf.is_incremental()),
{
    let ghost s = buf.bytes();
    let ghost p = buf.is_incremental();
    let n = buf.len();
    let more = buf.is_partial();
    let ghost m0 = Mode::ObjectField(fs, i);
    let mode: Mode;
    if i >= n {
        if more {
            proof { lemma_more(frames@, m0, s); }
            return Progress::Stop(Step::Suspended(Mode::ObjectField(fs, i)));
        }
        proof { lemma_fail(frames@, m0, s, p, ParseError::UnexpectedEndOfInput); }
        return Progress::Stop(Step::Failed(ParseError::UnexpectedEndOfInput));
    }
    let b = buf.byte_at(i);
    if ByteClass::Space.contains(b) {
        mode = Mode::ObjectField(fs, i + 1);
        proof {
            lemma_step(frames@, m0, mode, s, p);
        }
    } else if b != QUOTE {
        proof {
            lemma_fail(frames@, m0, s, p, ParseError::UnexpectedToken(b, i));
        }
        return Progress::Stop(Step::Failed(ParseError::UnexpectedToken(b, i)));
    } else {
        let f = Frame::Key(fs, i);
        mode = Mode::Str(i, i + 1);
        proof {
            lemma_push(frames@, f, m0, mode, s, p);
        }
        frames.push(f);
    }
    Progress::Next(mode)
}

fn step_object_colon(buf: &BytesBuf, frames: &mut Vec<Frame>, fs: Vec<(usize, usize, Node)>, a: usize, bk: usize, k: usize) -> (r: Progress)
    requires
        buf.wf(),
        resumes(old(frames)@, Mode::ObjectColon(fs, a, bk, k), buf.bytes(), buf.is_incremental()),
        within(old(frames)@, Mode::ObjectColon(fs, a, bk, k), buf.bytes().len() as int),
    ensures
        progress_ok(r, final(frames)@, Mode::ObjectColon(fs, a, bk, k), buf.bytes(), buf.is_incremental()),
{
    let ghost s = buf.bytes();
    let ghost p = buf.is_incremental();
    let n = buf.len();
    let more = buf.is_partial();
    let ghost m0 = Mode::ObjectColon(fs, a, bk, k);
    let mode: Mode;
    if k >= n {
        if more {
            proof { lemma_more(frames@, m0, s); }
            return Progress::Stop(Step::Suspended(Mode::ObjectColon(fs, a, bk, k)));
        }
        proof { lemma_fail(frames@, m0, s, p, ParseError::UnexpectedEndOfInput); }
        return Progress::Stop(Step::Failed(ParseError::UnexpectedEndOfInput));
    }
    let b = buf.byte_at(k);
    if ByteClass::Space.contains(b) {
        mode = Mode::ObjectColon(fs, a, bk, k + 1);
        proof {
            lemma_step(frames@, m0, mode, s, p);
        }
    } else if b == COLON {
        let ghost fv = fields_view(fs@);
        let f = Frame::Field(fs, a, bk, k + 1);
        mode = Mode::Value(k + 1);
        proof {
            assert forall|t: Seq<u8>, q: bool| continues(s, p, t, q) implies frame_res(f, #[trigger] mode_res(mode, t, q), t, q) == mode_res(m0, t, q) by {
                assert(t[k as int] == s[k as int]);
                assert(object_colon(t, q, fv, a as int, bk as int, k as int) == object_value(t, q, fv, a as int, bk as int, k + 1));
            }
            lemma_push(frames@, f, m0, mode, s, p);
        }
        frames.push(f);
    } else {
        proof {
            lemma_fail(frames@, m0, s, p, ParseError::ExpectedLiteral(Literal::Colon, k));
        }
        return Progress::Stop(Step::Failed(ParseError::ExpectedLiteral(Literal::Colon, k)));
    }
    Progress::Next(mode)
}

fn step_object_after(buf: &BytesBuf, frames: &mut Vec<Frame>, fs: Vec<(usize, usize, Node)>, k: usize) -> (r: Progress)
    requires
        buf.wf(),
        resumes(old(frames)@, Mode::ObjectAfter(fs, k), buf.bytes(), buf.is_incremental()),
        within(old(frames)@, Mode::ObjectAfter(fs, k), buf.bytes().len() as int),
    ensures
        progress_ok(r, final(frames)@, Mode::ObjectAfter(fs, k), buf.bytes(), buf.is_incremental()),
{
    let ghost s = buf.bytes();
    let ghost p = buf.is_incremental();
    let n = buf.len();
    let more = buf.is_partial();
    let ghost m0 = Mode::ObjectAfter(fs, k);
    let mode: Mode;
    if k >= n {
        if more {
            proof { lemma_more(frames@, m0, s); }
            return Progress::Stop(Step::Suspended(Mode::ObjectAfter(fs, k)));
        }
        proof { lemma_fail(frames@, m0, s, p, ParseError::UnexpectedEndOfInput); }
        return Progress::Stop(Step::Failed(ParseError::UnexpectedEndOfInput));
    }
    let b = buf.byte_at(k);
    if ByteClass::Space.contains(b) {
        mode = Mode::ObjectAfter(fs, k + 1);
        proof {
            lemma_step(frames@, m0, mode, s, p);
        }
    } else if b == COMMA {
        mode = Mode::ObjectField(fs, k + 1);
        proof {
            lemma_step(frames@, m0, mode, s, p);
        }
    } else if b == CLOSE_BRACE {
        proof { lemma_object_view(fs); }
        let node = Node::Object(fs);
        mode = Mode::Finished(node, k + 1);
        proof {
            lemma_step(frames@, m0, mode, s, p);
        }
    } else {
        proof {
            lemma_fail(frames@, m0, s, p, ParseError::UnexpectedToken(b, k));
        }
        return Progress::Stop(Step::Failed(ParseError::UnexpectedToken(b, k)));
    }
    Progress::Next(mode)
}

fn step_finished(buf: &BytesBuf, frames: &mut Vec<Frame>, node: Node, k: usize) -> (r: Progress)
    requires
        buf.wf(),
        resumes(old(frames)@, Mode::Finished(node, k), buf.bytes(), buf.is_incremental()),
        within(old(frames)@, Mode::Finished(node, k), buf.bytes().len() as int),
    ensures
        progress_ok(r, final(frames)@, Mode::Finished(node, k), buf.bytes(), buf.is_incremental()),
{
    let ghost s = buf.bytes();
    let ghost p = buf.is_incremental();
    let n = buf.len();
    let more = buf.is_partial();
    let ghost m0 = Mode::Finished(node, k);
    let mode: Mode;
    if frames.len() == 0 {
        // the document's value is done; the whitespace after it is taken too
        if k < n && ByteClass::Space.contains(buf.byte_at(k)) {
            mode = Mode::Finished(node, k + 1);
            proof {
                assert forall|t: Seq<u8>, q: bool| continues(s, p, t, q) implies #[trigger] doc_res(frames@, mode, t, q) == document(t, q) by {
                    assert(doc_res(frames@, m0, t, q) == document(t, q));
                    assert(t[k as int] == s[k as int]);
                    assert(run_end(t, k as int, ByteClass::Space) == run_end(t, k + 1, ByteClass::Space));
                }
            }
        } else if k >= n && more {
            proof {
                assert(continues(s, true, s, true));
                assert(doc_res(frames@, m0, s, true) == document(s, true));
            }
            return Progress::Stop(Step::Suspended(Mode::Finished(node, k)));
        } else {
            proof {
                assert forall|t: Seq<u8>, q: bool| continues(s, p, t, q) implies #[trigger] document(t, q) == Res::Parsed(node@, k as int) by {
                    assert(doc_res(frames@, m0, t, q) == document(t, q));
                    if k < n {
                        assert(t[k as int] == s[k as int]);
                    } else {
                        assert(t == s);
                    }
                }
            }
            return Progress::Stop(Step::Done(node, k));
        }
    } else {
    let ghost fs0 = frames@;
    let f = frames.pop().unwrap();
    proof {
        assert(fs0 =~= frames@.push(f));
    }
    match f {
        Frame::Items(mut items, i) => {
            if i >= k {
                proof {
                    assert forall|t: Seq<u8>, q: bool| continues(s, p, t, q) implies #[trigger] document(t, q) == Res::Failed(ParseError::UnexpectedEndOfInput) by {
                        assert(doc_res(fs0, m0, t, q) == document(t, q));
                        lemma_stack_passes(frames@, Res::Failed(ParseError::UnexpectedEndOfInput), t, q);
                    }
                }
                return Progress::Stop(Step::Failed(ParseError::UnexpectedEndOfInput));
            }
            let ghost f0 = Frame::Items(items, i);
            let ghost iv = items_view(items@);
            items.push(node);
            proof {
                assert(items_view(items@) =~= iv.push(node@));
            }
            mode = Mode::ArrayAfter(items, k);
            proof {
                lemma_pop(frames@, f0, node, k, mode, s, p);
            }
        },
        Frame::Key(fs, i) => {
            if k <= i || k - i < 2 {
                proof {
                    assert forall|t: Seq<u8>, q: bool| continues(s, p, t, q) implies #[trigger] document(t, q) == Res::Failed(ParseError::UnexpectedEndOfInput) by {
                        assert(doc_res(fs0, m0, t, q) == document(t, q));
                        lemma_stack_passes(frames@, Res::Failed(ParseError::UnexpectedEndOfInput), t, q);
                    }
                }
                return Progress::Stop(Step::Failed(ParseError::UnexpectedEndOfInput));
            }
            let ghost f0 = Frame::Key(fs, i);
            mode = Mode::ObjectColon(fs, i + 1, k - 1, k);
            proof {
                lemma_pop(frames@, f0, node, k, mode, s, p);
            }
        },
        Frame::Field(mut fs, a, bk, i) => {
            if i >= k {
                proof {
                    assert forall|t: Seq<u8>, q: bool| continues(s, p, t, q) implies #[trigger] document(t, q) == Res::Failed(ParseError::UnexpectedEndOfInput) by {
                        assert(doc_res(fs0, m0, t, q) == document(t, q));
                        lemma_stack_passes(frames@, Res::Failed(ParseError::UnexpectedEndOfInput), t, q);
                    }
                }
                return Progress::Stop(Step::Failed(ParseError::UnexpectedEndOfInput));
            }
            let ghost f0 = Frame::Field(fs, a, bk, i);
            let ghost fv = fields_view(fs@);
            fs.push((a, bk, node));
            proof {
                assert(fields_view(fs@) =~= fv.push((a as int, bk as int, node@)));
            }
            mode = Mode::ObjectAfter(fs, k);
            proof {
                lemma_pop(frames@, f0, node, k, mode, s, p);
            }
        },
    }
    }
    Progress::Next(mode)
}

/// Takes a run of digits; a run that reaches the end of the bytes at hand
/// is kept, and the next run goes on from its end.
fn step_num_int(buf: &BytesBuf, frames: &mut Vec<Frame>, i: usize, j: usize) -> (r: Progress)
    requires
        buf.wf(),
        resumes(old(frames)@, Mode::NumInt(i, j), buf.bytes(), buf.is_incremental()),
        within(old(frames)@, Mode::NumInt(i, j), buf.bytes().len() as int),
    ensures
        progress_ok(r, final(frames)@, Mode::NumInt(i, j), buf.bytes(), buf.is_incremental()),
{
    let ghost s = buf.bytes();
    let ghost p = buf.is_incremental();
    let n = buf.len();
    let more = buf.is_partial();
    let ghost m0 = Mode::NumInt(i, j);
    let e = buf.run_end_at(j, ByteClass::Digit);
    proof {
        lemma_run_end_bounds(s, j as int, ByteClass::Digit);
    }
    if e >= n {
        if more {
            proof {
                assert forall|t: Seq<u8>, q: bool| continues(s, p, t, q) implies #[trigger] mode_res(Mode::NumInt(i, e), t, q) == mode_res(m0, t, q) by {
                    lemma_run_end_skip(t, j as int, e as int, ByteClass::Digit);
                }
                lemma_step(frames@, m0, Mode::NumInt(i, e), s, p);
                lemma_more(frames@, Mode::NumInt(i, e), s);
            }
            return Progress::Stop(Step::Suspended(Mode::NumInt(i, e)));
        }
        let mode = Mode::Finished(Node::Number(i, e), e);
        proof {
            lemma_step(frames@, m0, mode, s, p);
        }
        return Progress::Next(mode);
    }
    proof {
        assert forall|t: Seq<u8>| is_prefix(s, t) implies #[trigger] run_end(t, j as int, ByteClass::Digit) == e by {
            lemma_run_end_prefix(s, t, j as int, ByteClass::Digit);
        }
    }
    let mode = if buf.byte_at(e) == DOT {
        Mode::NumFrac(i, e + 1)
    } else {
        Mode::NumExpo(i, e)
    };
    proof {
        lemma_step(frames@, m0, mode, s, p);
    }
    Progress::Next(mode)
}

/// Takes a run of digits; a run that reaches the end of the bytes at hand
/// is kept, and the next run goes on from its end.
fn step_num_frac(buf: &BytesBuf, frames: &mut Vec<Frame>, i: usize, j: usize) -> (r: Progress)
    requires
        buf.wf(),
        resumes(old(frames)@, Mode::NumFrac(i, j), buf.bytes(), buf.is_incremental()),
        within(old(frames)@, Mode::NumFrac(i, j), buf.bytes().len() as int),
    ensures
        progress_ok(r, final(frames)@, Mode::NumFrac(i, j), buf.bytes(), buf.is_incremental()),
{
    let ghost s = buf.bytes();
    let ghost p = buf.is_incremental();
    let n = buf.len();
    let more = buf.is_partial();
    let ghost m0 = Mode::NumFrac(i, j);
    let e = buf.run_end_at(j, ByteClass::Digit);
    proof {
        lemma_run_end_bounds(s, j as int, ByteClass::Digit);
    }
    if e >= n {
        if more {
            proof {
                assert forall|t: Seq<u8>, q: bool| continues(s, p, t, q) implies #[trigger] mode_res(Mode::NumFrac(i, e), t, q) == mode_res(m0, t, q) by {
                    lemma_run_end_skip(t, j as int, e as int, ByteClass::Digit);
                }
                lemma_step(frames@, m0, Mode::NumFrac(i, e), s, p);
                lemma_more(frames@, Mode::NumFrac(i, e), s);
            }
            return Progress::Stop(Step::Suspended(Mode::NumFrac(i, e)));
        }
        let mode = Mode::Finished(Node::Number(i, e), e);
        proof {
            lemma_step(frames@, m0, mode, s, p);
        }
        return Progress::Next(mode);
    }
    proof {
        assert forall|t: Seq<u8>| is_prefix(s, t) implies #[trigger] run_end(t, j as int, ByteClass::Digit) == e by {
            lemma_run_end_prefix(s, t, j as int, ByteClass::Digit);
        }
    }
    let mode = Mode::NumExpo(i, e);
    proof {
        lemma_step(frames@, m0, mode, s, p);
    }
    Progress::Next(mode)
}

/// Takes a run of digits; a run that reaches the end of the bytes at hand
/// is kept, and the next run goes on from its end.
fn step_num_exp(buf: &BytesBuf, frames: &mut Vec<Frame>, i: usize, j: usize) -> (r: Progress)
    requires
        buf.wf(),
        resumes(old(frames)@, Mode::NumExpDigits(i, j), buf.bytes(), buf.is_incremental()),
        within(old(frames)@, Mode::NumExpDigits(i, j), buf.bytes().len() as int),
    ensures
        progress_ok(r, final(frames)@, Mode::NumExpDigits(i, j), buf.bytes(), buf.is_incremental()),
{
    let ghost s = buf.bytes();
    let ghost p = buf.is_incremental();
    let n = buf.len();
    let more = buf.is_partial();
    let ghost m0 = Mode::NumExpDigits(i, j);
    let e = buf.run_end_at(j, ByteClass::Digit);
    proof {
        lemma_run_end_bounds(s, j as int, ByteClass::Digit);
    }
    if e >= n {
        if more {
            proof {
                assert forall|t: Seq<u8>, q: bool| continues(s, p, t, q) implies #[trigger] mode_res(Mode::NumExpDigits(i, e), t, q) == mode_res(m0, t, q) by {
                    lemma_run_end_skip(t, j as int, e as int, ByteClass::Digit);
                }
                lemma_step(frames@, m0, Mode::NumExpDigits(i, e), s, p);
                lemma_more(frames@, Mode::NumExpDigits(i, e), s);
            }
            return Progress::Stop(Step::Suspended(Mode::NumExpDigits(i, e)));
        }
        let mode = Mode::Finished(Node::Number(i, e), e);
        proof {
            lemma_step(frames@, m0, mode, s, p);
        }
        return Progress::Next(mode);
    }
    proof {
        assert forall|t: Seq<u8>| is_prefix(s, t) implies #[trigger] run_end(t, j as int, ByteClass::Digit) == e by {
            lemma_run_end_prefix(s, t, j as int, ByteClass::Digit);
        }
    }
    let mode = Mode::Finished(Node::Number(i, e), e);
    proof {
        lemma_step(frames@, m0, mode, s, p);
    }
    Progress::Next(mode)
}

/// At the byte after a number's mantissa: an exponent's `e` or `E`, its
/// optional sign and first digit, or the end of the number.
fn step_num_expo(buf: &BytesBuf, frames: &mut Vec<Frame>, i: usize, j: usize) -> (r: Progress)
    requires
        buf.wf(),
        resumes(old(frames)@, Mode::NumExpo(i, j), buf.bytes(), buf.is_incremental()),
        within(old(frames)@, Mode::NumExpo(i, j), buf.bytes().len() as int),
    ensures
        progress_ok(r, final(frames)@, Mode::NumExpo(i, j), buf.bytes(), buf.is_incremental()),
{
    let ghost s = buf.bytes();
    let ghost p = buf.is_incremental();
    let n = buf.len();
    let more = buf.is_partial();
    let ghost m0 = Mode::NumExpo(i, j);
    let b = buf.byte_at(j);
    if b != LOWER_E && b != UPPER_E {
        let mode = Mode::Finished(Node::Number(i, j), j);
        proof {
            lemma_step(frames@, m0, mode, s, p);
        }
        return Progress::Next(mode);
    }
    let k = j + 1;
    if k >= n {
        if more {
            proof { lemma_more(frames@, m0, s); }
            return Progress::Stop(Step::Suspended(Mode::NumExpo(i, j)));
        }
        proof { lemma_fail(frames@, m0, s, p, ParseError::UnexpectedEndOfInput); }
        return Progress::Stop(Step::Failed(ParseError::UnexpectedEndOfInput));
    }
    let sb = buf.byte_at(k);
    let k2 = if sb == PLUS || sb == MINUS { k + 1 } else { k };
    if k2 >= n {
        if more {
            proof { lemma_more(frames@, m0, s); }
            return Progress::Stop(Step::Suspended(Mode::NumExpo(i, j)));
        }
        proof { lemma_fail(frames@, m0, s, p, ParseError::UnexpectedEndOfInput); }
        return Progress::Stop(Step::Failed(ParseError::UnexpectedEndOfInput));
    }
    let dg = buf.byte_at(k2);
    if !ByteClass::Digit.contains(dg) {
        proof {
            lemma_fail(frames@, m0, s, p, ParseError::UnexpectedToken(dg, k2));
        }
        return Progress::Stop(Step::Failed(ParseError::UnexpectedToken(dg, k2)));
    }
    let mode = Mode::NumExpDigits(i, k2);
    proof {
        lemma_step(frames@, m0, mode, s, p);
    }
    Progress::Next(mode)
}

/// Runs the parser over the bytes at hand, from `mode` with `frames` waiting,
/// until a value is done, an error is found, or the bytes run out.
pub fn run(buf: &BytesBuf, frames: &mut Vec<Frame>, mode: Mode) -> (r: Step)
    requires
        buf.wf(),
        resumes(old(frames)@, mode, buf.bytes(), buf.is_incremental()),
        within(old(frames)@, mode, buf.bytes().len() as int),
    ensures
        stopped(r, final(frames)@, buf.bytes(), buf.is_incremental()),
{
    let ghost s = buf.bytes();
    let ghost p = buf.is_incremental();
    let n = buf.len();
    let more = buf.is_partial();
    let mut mode = mode;
    loop
        invariant
            s == buf.bytes(),
            p == buf.is_incremental(),
            n == s.len(),
            more == p,
            buf.wf(),
            resumes(frames@, mode, s, p),
            within(frames@, mode, n as int),
        decreases n - mode_pos(mode), mode_rank(mode),
    {
        let ghost m0 = mode;
        let r = match mode {
            Mode::Value(i) => step_value(buf, frames, i),
            Mode::Str(i, j) => step_string(buf, frames, i, j),
            Mode::Word(i, l, k) => step_word(buf, frames, i, l, k),
            Mode::ArrayOpen(i) => step_array_open(buf, frames, i),
            Mode::ArrayAfter(items, k) => step_array_after(buf, frames, items, k),
            Mode::ObjectOpen(i) => step_object_open(buf, frames, i),
            Mode::ObjectField(fs, i) => step_object_field(buf, frames, fs, i),
            Mode::ObjectColon(fs, a, bk, k) => step_object_colon(buf, frames, fs, a, bk, k),
            Mode::ObjectAfter(fs, k) => step_object_after(buf, frames, fs, k),
            Mode::Finished(node, k) => step_finished(buf, frames, node, k),
            Mode::NumInt(i, j) => step_num_int(buf, frames, i, j),
            Mode::NumFrac(i, j) => step_num_frac(buf, frames, i, j),
            Mode::NumExpo(i, j) => step_num_expo(buf, frames, i, j),
            Mode::NumExpDigits(i, j) => step_num_exp(buf, frames, i, j),
        };
        match r {
            Progress::Next(m) => {
                mode = m;
            },
            Progress::Stop(st) => {
                return st;
            },
        }
    }
}


proof fn lemma_items_mono(v: Seq<Node>, n: int, m: int)
    requires
        items_within(v, n),
        n <= m,
    ensures
        items_within(v, m),
{
    assert forall|i: int| 0 <= i < v.len() implies ranges_within(#[trigger] v[i]@, m) by {
        lemma_ranges_mono(v[i]@, n, m);
    }
}

proof fn lemma_fields_mono(v: Seq<(usize, usize, Node)>, n: int, m: int)
    requires
        fields_within(v, n),
        n <= m,
    ensures
        fields_within(v, m),
{
    assert forall|i: int| 0 <= i < v.len() implies (#[trigger] v[i]).0 <= v[i].1 <= m
        && ranges_within(v[i].2@, m) by {
        lemma_ranges_mono(v[i].2@, n, m);
    }
}

/// Offsets that lie inside a buffer still do once it has grown.
proof fn lemma_within_mono(frames: Seq<Frame>, m0: Mode, n: int, m: int)
    requires
        within(frames, m0, n),
        n <= m,
    ensures
        within(frames, m0, m),
{
    match m0 {
        Mode::ArrayAfter(items, _) => lemma_items_mono(items@, n, m),
        Mode::ObjectField(fs, _) => lemma_fields_mono(fs@, n, m),
        Mode::ObjectColon(fs, _, _, _) => lemma_fields_mono(fs@, n, m),
        Mode::ObjectAfter(fs, _) => lemma_fields_mono(fs@, n, m),
        Mode::Finished(node, _) => lemma_ranges_mono(node@, n, m),
        _ => {},
    }
    assert forall|i: int| 0 <= i < frames.len() implies frame_within(#[trigger] frames[i], m) by {
        match frames[i] {
            Frame::Items(items, _) => lemma_items_mono(items@, n, m),
            Frame::Field(fs, _, _, _) => lemma_fields_mono(fs@, n, m),
            Frame::Key(fs, _) => lemma_fields_mono(fs@, n, m),
        }
    }
}

/// What feeding or finishing gave.
#[derive(Debug, PartialEq, Eq)]
pub enum Outcome {
    /// The value, and how many bytes it took from the start of the input;
    /// bytes after those are left over for the caller.
    Complete(Value, usize),
    /// More bytes are needed.
    Incomplete,
    Error(ParseError),
}

/// The outcome that the document's result `res` over the input `s` calls for.
pub open spec fn outcome_of(r: Outcome, res: Res, s: Seq<u8>) -> bool {
    match res {
        Res::Parsed(tree, k) => r matches Outcome::Complete(v, n) && n == k && v@ == content(
            tree,
            s,
        ),
        Res::Failed(e) => r == Outcome::Error(e),
        Res::More => r is Incomplete,
    }
}

/// A value parser fed in chunks. It keeps every byte fed to it, and between
/// chunks the stack of rules that wait for more.
pub struct JsonValue {
    buf: BytesBuf,
    frames: Vec<Frame>,
    mode: Mode,
    done: bool,
}

impl JsonValue {
    /// Every byte fed so far.
    pub closed spec fn bytes(&self) -> Seq<u8> {
        self.buf.bytes()
    }

    /// A value or an error has been given; nothing more can be fed.
    pub closed spec fn is_finished(&self) -> bool {
        self.done
    }

    pub closed spec fn wf(&self) -> bool {
        !self.done ==> {
            &&& self.buf.wf()
            &&& self.buf.is_incremental()
            &&& resumes(self.frames@, self.mode, self.buf.bytes(), true)
            &&& within(self.frames@, self.mode, self.buf.bytes().len() as int)
        }
    }

    /// A parser that has been fed nothing yet.
    pub fn start() -> (r: Self)
        ensures
            r.wf(),
            !r.is_finished(),
            r.bytes() == Seq::<u8>::empty(),
    {
        let r = JsonValue {
            buf: BytesBuf::incremental(),
            frames: Vec::new(),
            mode: Mode::Value(0),
            done: false,
        };
        proof {
            assert forall|t: Seq<u8>, q: bool| continues(r.buf.bytes(), true, t, q) implies #[trigger] doc_res(
                r.frames@,
                r.mode,
                t,
                q,
            ) == document(t, q) by {}
        }
        r
    }

    pub fn finished(&self) -> (r: bool)
        ensures
            r == self.is_finished(),
    {
        self.done
    }

    /// Appends a chunk and parses as far as the bytes fed so far allow.
    ///
    /// The outcome is what the bytes fed so far settle; a value or an error is
    /// the same whatever bytes follow, so it does not depend on how the input
    /// was cut into chunks.
    pub fn feed(&mut self, chunk: &[u8]) -> (r: Outcome)
        requires
            old(self).wf(),
            !old(self).is_finished(),
        ensures
            final(self).wf(),
            outcome_of(r, document(old(self).bytes() + chunk@, true), old(self).bytes() + chunk@),
            r is Incomplete ==> !final(self).is_finished() && final(self).bytes() == old(self).bytes()
                + chunk@,
            !(r is Incomplete) ==> final(self).is_finished(),
            !(r is Incomplete) ==> forall|t: Seq<u8>, q: bool|
                continues(old(self).bytes() + chunk@, true, t, q) ==> #[trigger] document(t, q)
                    == document(old(self).bytes() + chunk@, true),
    {
        let ghost s0 = self.buf.bytes();
        self.buf.append(chunk);
        let ghost s = self.buf.bytes();
        proof {
            assert forall|t: Seq<u8>, q: bool| continues(s, true, t, q) implies #[trigger] doc_res(
                self.frames@,
                self.mode,
                t,
                q,
            ) == document(t, q) by {
                assert forall|k: int| 0 <= k < s0.len() implies #[trigger] t[k] == s0[k] by {
                    assert(s[k] == s0[k]);
                }
                assert(continues(s0, true, t, q));
            }
            lemma_within_mono(self.frames@, self.mode, s0.len() as int, s.len() as int);
        }
        let mut m = Mode::Value(0);
        core::mem::swap(&mut self.mode, &mut m);
        match run(&self.buf, &mut self.frames, m) {
            Step::Suspended(m2) => {
                self.mode = m2;
                Outcome::Incomplete
            },
            Step::Done(node, k) => {
                proof {
                    assert(continues(s, true, s, true));
                }
                self.done = true;
                let mut b = BytesBuf::incremental();
                core::mem::swap(&mut self.buf, &mut b);
                let shared = bytes_from_vec(b.into_vec());
                let v = materialize(&node, &shared);
                Outcome::Complete(v, k)
            },
            Step::Failed(e) => {
                proof {
                    assert(continues(s, true, s, true));
                }
                self.done = true;
                Outcome::Error(e)
            },
        }
    }

    /// Declares that no more chunks will arrive and settles the value, or the error.
    pub fn finish(&mut self) -> (r: Outcome)
        requires
            old(self).wf(),
            !old(self).is_finished(),
        ensures
            final(self).wf(),
            final(self).is_finished(),
            outcome_of(r, document(old(self).bytes(), false), old(self).bytes()),
            !(r is Incomplete),
    {
        let ghost s = self.buf.bytes();
        self.buf.set_complete();
        proof {
            assert forall|t: Seq<u8>, q: bool| continues(s, false, t, q) implies #[trigger] doc_res(
                self.frames@,
                self.mode,
                t,
                q,
            ) == document(t, q) by {
                assert(continues(s, true, t, q));
            }
        }
        let mut m = Mode::Value(0);
        core::mem::swap(&mut self.mode, &mut m);
        self.done = true;
        match run(&self.buf, &mut self.frames, m) {
            Step::Suspended(_) => Outcome::Incomplete,
            Step::Done(node, k) => {
                proof {
                    assert(continues(s, false, s, false));
                }
                let mut b = BytesBuf::incremental();
                core::mem::swap(&mut self.buf, &mut b);
                let shared = bytes_from_vec(b.into_vec());
                let v = materialize(&node, &shared);
                Outcome::Complete(v, k)
            },
            Step::Failed(e) => {
                proof {
                    assert(continues(s, false, s, false));
                }
                Outcome::Error(e)
            },
        }
    }
}

/// A value parser that has been fed nothing yet.
pub fn json_value_() -> (r: JsonValue)
    ensures
        r.wf(),
        !r.is_finished(),
        r.bytes() == Seq::<u8>::empty(),
{
    JsonValue::start()
}

/// Parses a complete input; bytes after the value are ignored.
pub fn parse_all(input: Vec<u8>) -> (r: Result<Value, ParseError>)
    ensures
        match document(input@, false) {
            Res::Parsed(tree, _) => r matches Ok(v) && v@ == content(tree, input@),
            Res::Failed(e) => r == Err::<Value, ParseError>(e),
            Res::More => false,
        },
{
    let buf = BytesBuf::new(input);
    let mut frames: Vec<Frame> = Vec::new();
    let ghost s = buf.bytes();
    proof {
        assert forall|t: Seq<u8>, q: bool| continues(s, false, t, q) implies #[trigger] doc_res(
            frames@,
            Mode::Value(0),
            t,
            q,
        ) == document(t, q) by {}
    }
    match run(&buf, &mut frames, Mode::Value(0)) {
        Step::Suspended(_) => Err(ParseError::UnexpectedEndOfInput),
        Step::Done(node, _) => {
            proof {
                assert(continues(s, false, s, false));
            }
            let shared = bytes_from_vec(buf.into_vec());
            Ok(materialize(&node, &shared))
        },
        Step::Failed(e) => {
            proof {
                assert(continues(s, false, s, false));
            }
            Err(e)
        },
    }
}

} // verus!

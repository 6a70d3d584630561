//! Parsed values, their models, and parse errors.
use vstd::prelude::*;
use bytes::Bytes;
use crate::byterange::{bytes_view, bytes_slice, BytesRange};

verus! {

/// A parsed value; strings and numbers are raw slices of the input.
#[derive(Debug, PartialEq, Eq)]
pub enum Value {
    Number(BytesRange),
    String(BytesRange),
    Bool(bool),
    Null,
    Object(Vec<(BytesRange, Value)>),
    Array(Vec<Value>),
}

/// What a value holds: strings and numbers as their raw bytes.
pub enum Json {
    Number(Seq<u8>),
    Str(Seq<u8>),
    Bool(bool),
    Null,
    Object(Seq<(Seq<u8>, Json)>),
    Array(Seq<Json>),
}

/// A parse tree over the input: strings and numbers as `[start, end)` offsets.
pub enum Tree {
    Number(int, int),
    Str(int, int),
    Bool(bool),
    Null,
    Object(Seq<(int, int, Tree)>),
    Array(Seq<Tree>),
}

/// The value that a tree over `s` stands for: each range is read from `s` at its offsets.
pub open spec fn content(t: Tree, s: Seq<u8>) -> Json
    decreases t,
{
    match t {
        Tree::Number(a, b) => Json::Number(s.subrange(a, b)),
        Tree::Str(a, b) => Json::Str(s.subrange(a, b)),
        Tree::Bool(b) => Json::Bool(b),
        Tree::Null => Json::Null,
        Tree::Object(fs) => Json::Object(
            Seq::new(
                fs.len(),
                |i: int|
                    if 0 <= i < fs.len() {
                        (s.subrange(fs[i].0, fs[i].1), content(fs[i].2, s))
                    } else {
                        (Seq::empty(), Json::Null)
                    },
            ),
        ),
        Tree::Array(vs) => Json::Array(
            Seq::new(
                vs.len(),
                |i: int|
                    if 0 <= i < vs.len() {
                        content(vs[i], s)
                    } else {
                        Json::Null
                    },
            ),
        ),
    }
}

/// Every range of the tree lies inside `[0, n]`.
pub open spec fn ranges_within(t: Tree, n: int) -> bool
    decreases t,
{
    match t {
        Tree::Number(a, b) => 0 <= a <= b <= n,
        Tree::Str(a, b) => 0 <= a <= b <= n,
        Tree::Bool(_) => true,
        Tree::Null => true,
        Tree::Object(fs) => forall|i: int|
            0 <= i < fs.len() ==> 0 <= (#[trigger] fs[i]).0 <= fs[i].1 <= n && ranges_within(
                fs[i].2,
                n,
            ),
        Tree::Array(vs) => forall|i: int| 0 <= i < vs.len() ==> ranges_within(#[trigger] vs[i], n),
    }
}

/// Ranges that lie inside `[0, n]` lie inside `[0, m]` for any larger `m`.
pub proof fn lemma_ranges_mono(t: Tree, n: int, m: int)
    requires
        ranges_within(t, n),
        n <= m,
    ensures
        ranges_within(t, m),
    decreases t,
{
    match t {
        Tree::Object(fs) => {
            assert forall|i: int| 0 <= i < fs.len() implies 0 <= (#[trigger] fs[i]).0 <= fs[i].1 <= m
                && ranges_within(fs[i].2, m) by {
                assert(decreases_to!(t => fs));
                assert(decreases_to!(fs => fs[i]));
                assert(decreases_to!(fs[i] => fs[i].2));
                lemma_ranges_mono(fs[i].2, n, m);
            }
        },
        Tree::Array(vs) => {
            assert forall|i: int| 0 <= i < vs.len() implies ranges_within(#[trigger] vs[i], m) by {
                assert(decreases_to!(t => vs));
                assert(decreases_to!(vs => vs[i]));
                lemma_ranges_mono(vs[i], n, m);
            }
        },
        _ => {},
    }
}

impl Value {
    pub open spec fn view(&self) -> Json
        decreases self,
    {
        match self {
            Value::Number(r) => Json::Number(r@),
            Value::String(r) => Json::Str(r@),
            Value::Bool(b) => Json::Bool(*b),
            Value::Null => Json::Null,
            Value::Object(fs) => Json::Object(
                Seq::new(
                    fs.len() as nat,
                    |i: int|
                        if 0 <= i < fs.len() {
                            (fs[i].0@, fs[i].1.view())
                        } else {
                            (Seq::empty(), Json::Null)
                        },
                ),
            ),
            Value::Array(vs) => Json::Array(
                Seq::new(
                    vs.len() as nat,
                    |i: int|
                        if 0 <= i < vs.len() {
                            vs[i].view()
                        } else {
                            Json::Null
                        },
                ),
            ),
        }
    }
}

/// A parse tree as the parser builds it, before the buffer is shared out.
#[derive(Debug)]
pub enum Node {
    Number(usize, usize),
    Str(usize, usize),
    Bool(bool),
    Null,
    Object(Vec<(usize, usize, Node)>),
    Array(Vec<Node>),
}

impl Node {
    pub open spec fn view(&self) -> Tree
        decreases self,
    {
        match self {
            Node::Number(a, b) => Tree::Number(*a as int, *b as int),
            Node::Str(a, b) => Tree::Str(*a as int, *b as int),
            Node::Bool(b) => Tree::Bool(*b),
            Node::Null => Tree::Null,
            Node::Object(fs) => Tree::Object(
                Seq::new(
                    fs.len() as nat,
                    |i: int|
                        if 0 <= i < fs.len() {
                            (fs[i].0 as int, fs[i].1 as int, fs[i].2.view())
                        } else {
                            (0, 0, Tree::Null)
                        },
                ),
            ),
            Node::Array(vs) => Tree::Array(
                Seq::new(
                    vs.len() as nat,
                    |i: int|
                        if 0 <= i < vs.len() {
                            vs[i].view()
                        } else {
                            Tree::Null
                        },
                ),
            ),
        }
    }
}

/// Builds the value of a tree by slicing the shared buffer; no byte is copied.
pub fn materialize(n: &Node, buf: &Bytes) -> (r: Value)
    requires
        ranges_within(n@, bytes_view(*buf).len() as int),
    ensures
        r@ == content(n@, bytes_view(*buf)),
    decreases n,
{
    match *n {
        Node::Number(a, b) => Value::Number(BytesRange(bytes_slice(buf, a, b))),
        Node::Str(a, b) => Value::String(BytesRange(bytes_slice(buf, a, b))),
        Node::Bool(b) => Value::Bool(b),
        Node::Null => Value::Null,
        Node::Object(ref fs) => {
            let mut out: Vec<(BytesRange, Value)> = Vec::new();
            let mut i: usize = 0;
            while i < fs.len()
                invariant
                    i <= fs.len(),
                    out.len() == i,
                    ranges_within(n@, bytes_view(*buf).len() as int),
                    *n == Node::Object(*fs),
                    n@ is Object,
                    n@->Object_0.len() == fs.len(),
                    forall|j: int|
                        0 <= j < fs.len() ==> (#[trigger] n@->Object_0[j]) == (
                            fs[j].0 as int,
                            fs[j].1 as int,
                            fs[j].2@,
                        ),
                    forall|j: int|
                        0 <= j < i ==> (#[trigger] out[j]).0@ == bytes_view(*buf).subrange(
                            fs[j].0 as int,
                            fs[j].1 as int,
                        ) && out[j].1@ == content(fs[j].2@, bytes_view(*buf)),
                decreases fs.len() - i,
            {
                proof {
                    assert(n@->Object_0[i as int] == (fs[i as int].0 as int, fs[i as int].1 as int, fs[i as int].2@));
                    let w = n->Object_0;
                    assert(w@ == fs@);
                    assert(decreases_to!(*n => w));
                    assert(decreases_to!(w => w[i as int]));
                    assert(decreases_to!(w[i as int] => w[i as int].2));
                    assert(decreases_to!(*n => w[i as int].2));
                }
                let key = BytesRange(bytes_slice(buf, fs[i].0, fs[i].1));
                let v = materialize(&fs[i].2, buf);
                out.push((key, v));
                i = i + 1;
            }
            let r = Value::Object(out);
            assert(r@->Object_0 =~= content(n@, bytes_view(*buf))->Object_0);
            r
        },
        Node::Array(ref vs) => {
            let mut out: Vec<Value> = Vec::new();
            let mut i: usize = 0;
            while i < vs.len()
                invariant
                    i <= vs.len(),
                    out.len() == i,
                    ranges_within(n@, bytes_view(*buf).len() as int),
                    *n == Node::Array(*vs),
                    n@ is Array,
                    n@->Array_0.len() == vs.len(),
                    forall|j: int| 0 <= j < vs.len() ==> (#[trigger] n@->Array_0[j]) == vs[j]@,
                    forall|j: int| 0 <= j < i ==> (#[trigger] out[j])@ == content(vs[j]@, bytes_view(*buf)),
                decreases vs.len() - i,
            {
                proof {
                    assert(n@->Array_0[i as int] == vs[i as int]@);
                    let w = n->Array_0;
                    assert(w@ == vs@);
                    assert(decreases_to!(*n => w));
                    assert(decreases_to!(w => w[i as int]));
                    assert(decreases_to!(*n => w[i as int]));
                }
                let v = materialize(&vs[i], buf);
                out.push(v);
                i = i + 1;
            }
            let r = Value::Array(out);
            assert(r@->Array_0 =~= content(n@, bytes_view(*buf))->Array_0);
            r
        },
    }
}

} // verus!

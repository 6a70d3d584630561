//! Shared byte ranges and the cursor over the parse buffer.
use vstd::prelude::*;
use bytes::Bytes;

verus! {

#[verifier::external_type_specification]
#[verifier::external_body]
pub struct ExBytes(Bytes);

/// The bytes that a `Bytes` handle shows.
pub uninterp spec fn bytes_view(b: Bytes) -> Seq<u8>;

/// Relies on `From<Vec<u8>> for Bytes`: takes the vector's storage over, contents unchanged.
#[verifier::external_body]
pub(crate) fn bytes_from_vec(v: Vec<u8>) -> (r: Bytes)
    ensures
        bytes_view(r) == v@,
{
    Bytes::from(v)
}

/// Relies on `Bytes::slice`: an O(1) handle on `begin..end` of the same storage.
/// It panics unless `begin <= end <= len`.
#[verifier::external_body]
pub(crate) fn bytes_slice(b: &Bytes, begin: usize, end: usize) -> (r: Bytes)
    requires
        begin <= end <= bytes_view(*b).len(),
    ensures
        bytes_view(r) == bytes_view(*b).subrange(begin as int, end as int),
{
    b.slice(begin..end)
}

/// Relies on `Bytes::len`: the number of bytes shown.
#[verifier::external_body]
pub(crate) fn bytes_len(b: &Bytes) -> (r: usize)
    ensures
        r == bytes_view(*b).len(),
{
    b.len()
}

/// A zero-copy view of part of a shared buffer; compared by content.
#[derive(Debug, PartialEq, Eq)]
pub struct BytesRange(pub Bytes);

impl BytesRange {
    pub open spec fn view(&self) -> Seq<u8> {
        bytes_view(self.0)
    }

    pub fn len(&self) -> (r: usize)
        ensures
            r == self@.len(),
    {
        bytes_len(&self.0)
    }

    pub fn is_empty(&self) -> (r: bool)
        ensures
            r == (self@.len() == 0),
    {
        bytes_len(&self.0) == 0
    }
}


/// The classes of bytes that the scanners skip over.
#[derive(Debug, Clone, Copy, PartialEq, Eq)]
pub enum ByteClass {
    /// Space, tab, carriage return and line feed.
    Space,
    /// `0` to `9`.
    Digit,
    /// Any byte but a backslash or a double quote.
    Plain,
}

pub open spec fn in_class(c: ByteClass, b: u8) -> bool {
    match c {
        ByteClass::Space => b == 0x20 || b == 0x09 || b == 0x0d || b == 0x0a,
        ByteClass::Digit => 0x30 <= b <= 0x39,
        ByteClass::Plain => b != 0x5c && b != 0x22,
    }
}

impl ByteClass {
    pub fn contains(self, b: u8) -> (r: bool)
        ensures
            r == in_class(self, b),
    {
        match self {
            ByteClass::Space => b == 0x20 || b == 0x09 || b == 0x0d || b == 0x0a,
            ByteClass::Digit => b >= 0x30 && b <= 0x39,
            ByteClass::Plain => b != 0x5c && b != 0x22,
        }
    }
}

/// The end of the longest run of bytes of class `c` in `s` that starts at `i`.
pub open spec fn run_end(s: Seq<u8>, i: int, c: ByteClass) -> int
    decreases s.len() - i,
{
    if 0 <= i < s.len() && in_class(c, s[i]) {
        run_end(s, i + 1, c)
    } else {
        i
    }
}

pub proof fn lemma_run_end_bounds(s: Seq<u8>, i: int, c: ByteClass)
    requires
        0 <= i <= s.len(),
    ensures
        i <= run_end(s, i, c) <= s.len(),
        run_end(s, i, c) < s.len() ==> !in_class(c, s[run_end(s, i, c)]),
        forall|k: int| i <= k < run_end(s, i, c) ==> in_class(c, #[trigger] s[k]),
    decreases s.len() - i,
{
    if i < s.len() && in_class(c, s[i]) {
        lemma_run_end_bounds(s, i + 1, c);
    }
}

/// A run that is confirmed up to `j` ends where the run from `j` ends.
pub proof fn lemma_run_end_skip(s: Seq<u8>, i: int, j: int, c: ByteClass)
    requires
        0 <= i <= j <= s.len(),
        forall|k: int| i <= k < j ==> in_class(c, #[trigger] s[k]),
    ensures
        run_end(s, i, c) == run_end(s, j, c),
    decreases j - i,
{
    if i < j {
        lemma_run_end_skip(s, i + 1, j, c);
    }
}

/// `s` is a prefix of `t`.
pub open spec fn is_prefix(s: Seq<u8>, t: Seq<u8>) -> bool {
    s.len() <= t.len() && forall|k: int| 0 <= k < s.len() ==> #[trigger] t[k] == s[k]
}

/// A run that stops inside `s` stops at the same place in any longer input.
pub proof fn lemma_run_end_prefix(s: Seq<u8>, t: Seq<u8>, i: int, c: ByteClass)
    requires
        is_prefix(s, t),
        0 <= i <= s.len(),
        run_end(s, i, c) < s.len(),
    ensures
        run_end(t, i, c) == run_end(s, i, c),
    decreases s.len() - i,
{
    if in_class(c, s[i]) {
        lemma_run_end_prefix(s, t, i + 1, c);
    }
}

/// Why a read could not be served.
#[derive(Debug, Clone, Copy, PartialEq, Eq)]
pub enum StreamEnd {
    /// The buffer ran out and more chunks may still arrive.
    NeedMoreInput,
    /// The buffer ran out and the stream is complete.
    EndOfInput,
}

/// A cursor over an append-only byte buffer.
#[derive(Debug, Clone)]
pub struct BytesBuf {
    data: Vec<u8>,
    pos: usize,
    partial: bool,
}

impl BytesBuf {
    /// Every byte appended so far.
    pub closed spec fn bytes(&self) -> Seq<u8> {
        self.data@
    }

    /// The offset of the next byte to read.
    pub closed spec fn offset(&self) -> int {
        self.pos as int
    }

    /// Whether more chunks may still be appended.
    pub closed spec fn is_incremental(&self) -> bool {
        self.partial
    }

    /// The offset lies inside the buffer.
    pub open spec fn wf(&self) -> bool {
        0 <= self.offset() <= self.bytes().len()
    }

    pub open spec fn end_of(&self) -> StreamEnd {
        if self.is_incremental() {
            StreamEnd::NeedMoreInput
        } else {
            StreamEnd::EndOfInput
        }
    }

    /// A cursor at the start of a complete stream.
    pub fn new(b: Vec<u8>) -> (r: Self)
        ensures
            r.wf(),
            r.bytes() == b@,
            r.offset() == 0,
            !r.is_incremental(),
    {
        BytesBuf { data: b, pos: 0, partial: false }
    }

    /// A cursor at the start of an empty stream to which chunks will be appended.
    pub fn incremental() -> (r: Self)
        ensures
            r.wf(),
            r.bytes() == Seq::<u8>::empty(),
            r.offset() == 0,
            r.is_incremental(),
    {
        BytesBuf { data: Vec::new(), pos: 0, partial: true }
    }

    /// Appends a chunk; bytes already there keep their offsets.
    pub fn append(&mut self, chunk: &[u8])
        requires
            old(self).wf(),
        ensures
            final(self).wf(),
            final(self).bytes() == old(self).bytes() + chunk@,
            final(self).offset() == old(self).offset(),
            final(self).is_incremental() == old(self).is_incremental(),
    {
        let mut i: usize = 0;
        while i < chunk.len()
            invariant
                self.wf(),
                i <= chunk@.len(),
                self.bytes() == old(self).bytes() + chunk@.subrange(0, i as int),
                self.offset() == old(self).offset(),
                self.is_incremental() == old(self).is_incremental(),
            decreases chunk@.len() - i,
        {
            self.data.push(chunk[i]);
            i = i + 1;
            assert(chunk@.subrange(0, i as int) == chunk@.subrange(0, i - 1) + seq![chunk@[i - 1]]);
        }
        assert(chunk@.subrange(0, i as int) == chunk@);
    }

    /// Gives the buffer up.
    pub fn into_vec(self) -> (r: Vec<u8>)
        ensures
            r@ == self.bytes(),
    {
        self.data
    }

    /// Declares that no more chunks will arrive.
    pub fn set_complete(&mut self)
        requires
            old(self).wf(),
        ensures
            final(self).wf(),
            final(self).bytes() == old(self).bytes(),
            final(self).offset() == old(self).offset(),
            !final(self).is_incremental(),
    {
        self.partial = false;
    }

    pub fn is_partial(&self) -> (r: bool)
        ensures
            r == self.is_incremental(),
    {
        self.partial
    }

    pub fn pos(&self) -> (r: usize)
        requires
            self.wf(),
        ensures
            r == self.offset(),
    {
        self.pos
    }

    pub fn len(&self) -> (r: usize)
        ensures
            r == self.bytes().len(),
    {
        self.data.len()
    }

    /// The bytes not read yet.
    pub fn next_bytes(&self) -> (r: &[u8])
        requires
            self.wf(),
        ensures
            r@ == self.bytes().subrange(self.offset(), self.bytes().len() as int),
    {
        vstd::slice::slice_subrange(self.data.as_slice(), self.pos, self.data.len())
    }

    /// The byte at `i`, which must lie in the buffer.
    pub fn byte_at(&self, i: usize) -> (r: u8)
        requires
            i < self.bytes().len(),
        ensures
            r == self.bytes()[i as int],
    {
        self.data[i]
    }

    /// Captures the current offset.
    pub fn checkpoint(&self) -> (r: usize)
        requires
            self.wf(),
        ensures
            r == self.offset(),
    {
        self.pos
    }

    /// Moves back (or forth) to an offset inside the buffer.
    pub fn reset(&mut self, checkpoint: usize)
        requires
            old(self).wf(),
            checkpoint <= old(self).bytes().len(),
        ensures
            final(self).wf(),
            final(self).bytes() == old(self).bytes(),
            final(self).offset() == checkpoint,
            final(self).is_incremental() == old(self).is_incremental(),
    {
        self.pos = checkpoint;
    }

    /// The number of bytes read since `checkpoint`.
    pub fn distance(&self, checkpoint: usize) -> (r: usize)
        requires
            self.wf(),
            checkpoint <= self.offset(),
        ensures
            r == self.offset() - checkpoint,
    {
        self.pos - checkpoint
    }

    /// Reads one byte and moves past it.
    pub fn uncons(&mut self) -> (r: Result<u8, StreamEnd>)
        requires
            old(self).wf(),
        ensures
            final(self).wf(),
            final(self).bytes() == old(self).bytes(),
            final(self).is_incremental() == old(self).is_incremental(),
            old(self).offset() < old(self).bytes().len() ==> r == Ok::<u8, StreamEnd>(
                old(self).bytes()[old(self).offset()],
            ) && final(self).offset() == old(self).offset() + 1,
            old(self).offset() == old(self).bytes().len() ==> r == Err::<u8, StreamEnd>(
                old(self).end_of(),
            ) && final(self).offset() == old(self).offset(),
    {
        if self.pos < self.data.len() {
            let b = self.data[self.pos];
            self.pos = self.pos + 1;
            Ok(b)
        } else if self.partial {
            Err(StreamEnd::NeedMoreInput)
        } else {
            Err(StreamEnd::EndOfInput)
        }
    }

    /// Moves past `size` bytes that are already known to be there.
    pub fn skip_range(&mut self, size: usize) -> (r: Result<(), StreamEnd>)
        requires
            old(self).wf(),
        ensures
            final(self).wf(),
            final(self).bytes() == old(self).bytes(),
            final(self).is_incremental() == old(self).is_incremental(),
            old(self).offset() + size <= old(self).bytes().len() ==> r is Ok
                && final(self).offset() == old(self).offset() + size,
            old(self).offset() + size > old(self).bytes().len() ==> r == Err::<(), StreamEnd>(
                old(self).end_of(),
            ) && final(self).offset() == old(self).offset(),
    {
        if size <= self.data.len() - self.pos {
            self.pos = self.pos + size;
            Ok(())
        } else if self.partial {
            Err(StreamEnd::NeedMoreInput)
        } else {
            Err(StreamEnd::EndOfInput)
        }
    }

    /// Moves past the next `size` bytes and gives their span `[start, end)`,
    /// which can later be cut out of the shared buffer without copying.
    pub fn uncons_range(&mut self, size: usize) -> (r: Result<(usize, usize), StreamEnd>)
        requires
            old(self).wf(),
        ensures
            final(self).wf(),
            final(self).bytes() == old(self).bytes(),
            final(self).is_incremental() == old(self).is_incremental(),
            old(self).offset() + size <= old(self).bytes().len() ==> r == Ok::<(usize, usize), StreamEnd>(
                (old(self).offset() as usize, (old(self).offset() + size) as usize),
            ) && final(self).offset() == old(self).offset() + size,
            old(self).offset() + size > old(self).bytes().len() ==> r == Err::<(usize, usize), StreamEnd>(
                old(self).end_of(),
            ) && final(self).offset() == old(self).offset(),
    {
        let start = self.pos;
        match self.skip_range(size) {
            Ok(()) => Ok((start, self.pos)),
            Err(e) => Err(e),
        }
    }

    /// The longest run of class `c` that starts at the offset; nothing is consumed.
    pub fn slice_while(&self, c: ByteClass) -> (r: &[u8])
        requires
            self.wf(),
        ensures
            r@ == self.bytes().subrange(self.offset(), run_end(self.bytes(), self.offset(), c)),
    {
        let n = self.run_length(c);
        vstd::slice::slice_subrange(self.data.as_slice(), self.pos, self.pos + n)
    }

    fn run_length(&self, c: ByteClass) -> (r: usize)
        requires
            self.wf(),
        ensures
            self.offset() + r == run_end(self.bytes(), self.offset(), c),
            self.pos + r <= self.data.len(),
    {
        self.run_end_at(self.pos, c) - self.pos
    }

    /// Where the longest run of class `c` that starts at `from` ends.
    pub fn run_end_at(&self, from: usize, c: ByteClass) -> (r: usize)
        requires
            from <= self.bytes().len(),
        ensures
            r == run_end(self.bytes(), from as int, c),
            from <= r <= self.bytes().len(),
            from < self.bytes().len() && in_class(c, self.bytes()[from as int]) ==> from < r,
    {
        let mut j = from;
        proof {
            lemma_run_end_bounds(self.data@, from as int, c);
            if from < self.data.len() && in_class(c, self.data@[from as int]) {
                lemma_run_end_bounds(self.data@, from + 1, c);
            }
        }
        while j < self.data.len() && c.contains(self.data[j])
            invariant
                from <= j <= self.data.len(),
                run_end(self.data@, from as int, c) == run_end(self.data@, j as int, c),
            decreases self.data.len() - j,
        {
            j = j + 1;
        }
        j
    }

    /// Moves past the longest run of class `c` and returns its length.
    pub fn skip_while(&mut self, c: ByteClass) -> (r: usize)
        requires
            old(self).wf(),
        ensures
            final(self).wf(),
            final(self).bytes() == old(self).bytes(),
            final(self).is_incremental() == old(self).is_incremental(),
            final(self).offset() == run_end(old(self).bytes(), old(self).offset(), c),
            r == final(self).offset() - old(self).offset(),
    {
        let n = self.run_length(c);
        self.pos = self.pos + n;
        n
    }
}


/// How a skip-while scan ended.
#[derive(Debug, Clone, Copy, PartialEq, Eq)]
pub enum Skipped {
    /// No byte matched; nothing was consumed.
    Empty,
    /// That many bytes matched, up to a byte that does not or the end of a complete stream.
    Consumed(usize),
    /// The scan ran off the end of a stream that may still grow, after that many bytes.
    Suspended(usize),
}

/// What a scan of class `c` from offset `i` gives on `s`.
pub open spec fn skip_result(s: Seq<u8>, incremental: bool, i: int, c: ByteClass) -> Skipped {
    let e = run_end(s, i, c);
    if incremental && e == s.len() {
        Skipped::Suspended((e - i) as usize)
    } else if e == i {
        Skipped::Empty
    } else {
        Skipped::Consumed((e - i) as usize)
    }
}

/// Moves past the longest run of class `c` and tells which of the three ways it ended.
pub fn skip_stream_while(input: &mut BytesBuf, c: ByteClass) -> (r: Skipped)
    requires
        old(input).wf(),
    ensures
        final(input).wf(),
        final(input).bytes() == old(input).bytes(),
        final(input).is_incremental() == old(input).is_incremental(),
        final(input).offset() == run_end(old(input).bytes(), old(input).offset(), c),
        r == skip_result(old(input).bytes(), old(input).is_incremental(), old(input).offset(), c),
{
    let before = input.checkpoint();
    input.skip_while(c);
    let n = input.distance(before);
    if input.is_partial() && input.pos() == input.len() {
        Skipped::Suspended(n)
    } else if n == 0 {
        Skipped::Empty
    } else {
        Skipped::Consumed(n)
    }
}

/// A resumable scan over the bytes of one class. Its state is the number of
/// bytes already confirmed by an attempt that ran out of input; a resumed
/// attempt moves past them without testing them again.
#[derive(Debug, Clone, Copy, PartialEq, Eq)]
pub struct SkipWhile {
    pub class: ByteClass,
}

pub fn skip_while(c: ByteClass) -> (r: SkipWhile)
    ensures
        r.class == c,
{
    SkipWhile { class: c }
}

impl SkipWhile {
    /// Scans from the offset, after the `*state` bytes confirmed before.
    /// On suspension the cursor goes back to where it stood and `*state`
    /// holds the bytes confirmed so far; otherwise `*state` is reset to 0.
    pub fn parse(&self, input: &mut BytesBuf, state: &mut usize) -> (r: Skipped)
        requires
            old(input).wf(),
            old(input).offset() + *old(state) <= old(input).bytes().len(),
            forall|k: int|
                old(input).offset() <= k < old(input).offset() + *old(state) ==> in_class(
                    self.class,
                    #[trigger] old(input).bytes()[k],
                ),
        ensures
            final(input).wf(),
            final(input).bytes() == old(input).bytes(),
            final(input).is_incremental() == old(input).is_incremental(),
            r == skip_result(old(input).bytes(), old(input).is_incremental(), old(input).offset(), self.class),
            r matches Skipped::Suspended(n) ==> final(input).offset() == old(input).offset() && *final(state) == n,
            !(r is Suspended) ==> *final(state) == 0 && final(input).offset() == run_end(
                old(input).bytes(),
                old(input).offset(),
                self.class,
            ),
    {
        let before = input.checkpoint();
        let ghost s = input.bytes();
        proof {
            lemma_run_end_skip(s, before as int, before + *state, self.class);
            lemma_run_end_bounds(s, before as int, self.class);
        }
        if *state > 0 {
            let _ = input.skip_range(*state);
        }
        skip_stream_while(input, self.class);
        let n = input.distance(before);
        if input.is_partial() && input.pos() == input.len() {
            *state = n;
            input.reset(before);
            Skipped::Suspended(n)
        } else {
            *state = 0;
            if n == 0 {
                Skipped::Empty
            } else {
                Skipped::Consumed(n)
            }
        }
    }
}

/// Like `skip_stream_while`, but a scan that matches no byte and does not
/// run out of input fails (`None`) and consumes nothing.
pub fn skip_while1(input: &mut BytesBuf, c: ByteClass) -> (r: Option<Skipped>)
    requires
        old(input).wf(),
    ensures
        final(input).wf(),
        final(input).bytes() == old(input).bytes(),
        final(input).is_incremental() == old(input).is_incremental(),
        final(input).offset() == run_end(old(input).bytes(), old(input).offset(), c),
        skip_result(old(input).bytes(), old(input).is_incremental(), old(input).offset(), c)
            is Empty ==> r is None,
        !(skip_result(old(input).bytes(), old(input).is_incremental(), old(input).offset(), c)
            is Empty) ==> r == Some(
            skip_result(old(input).bytes(), old(input).is_incremental(), old(input).offset(), c),
        ),
{
    match skip_stream_while(input, c) {
        Skipped::Empty => None,
        other => Some(other),
    }
}

} // verus!

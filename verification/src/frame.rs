use vstd::prelude::*;

use crate::digits::{all_digits, dec_value, is_digit, parse_decimal};

verus! {

/// Maximum nesting depth the parser accepts for arrays, so that
/// adversarial input cannot drive the recursion arbitrarily deep.
pub const MAX_DEPTH: u32 = 64;

/// One self-delimited unit of the wire protocol.
#[derive(Debug, PartialEq, Eq)]
pub enum Frame {
    /// A length-prefixed binary string; may contain any byte.
    Bulk(Vec<u8>),
    /// A counted sequence of sub-frames; may nest and may be empty.
    Array(Vec<Frame>),
    /// A short status line, terminated by the first CRLF.
    Simple(Vec<u8>),
    /// An error message line, terminated by the first CRLF.
    Error(Vec<u8>),
    /// The absence of a value, distinct from an empty bulk string.
    Null,
}

/// Mathematical model of a `Frame`, with sequences in place of vectors.
pub enum FrameModel {
    Bulk(Seq<u8>),
    Array(Seq<FrameModel>),
    Simple(Seq<u8>),
    Error(Seq<u8>),
    Null,
}

/// Reason a byte sequence can never parse as a frame.
#[derive(Debug, PartialEq, Eq, Clone, Copy)]
pub enum ProtocolError {
    /// The leading byte is not one of the known type tokens.
    UnknownType,
    /// A length field is empty, not all digits, or too large for `u64`.
    BadLength,
    /// A bulk string's body is not followed by CRLF at the declared length.
    BadBulkEnd,
    /// A null frame carries bytes before its CRLF.
    BadNull,
    /// Arrays nest deeper than `MAX_DEPTH`.
    TooDeep,
}

/// Outcome of one parse attempt on a buffer.
#[derive(Debug, PartialEq, Eq, Clone, Copy)]
pub enum ParseError {
    /// The buffer holds a prefix of a valid frame; retry with more bytes.
    Incomplete,
    /// The buffer can never begin with a valid frame.
    Other(ProtocolError),
}

impl ProtocolError {
    /// A short description of the violation, for logs and diagnostics.
    pub fn message(&self) -> (r: &'static str)
        ensures
            r@ == match self {
                ProtocolError::UnknownType => ("unknown data type token")@,
                ProtocolError::BadLength => ("malformed length field")@,
                ProtocolError::BadBulkEnd => (
                "bulk string not terminated at its declared length")@,
                ProtocolError::BadNull => ("null frame carries data")@,
                ProtocolError::TooDeep => ("arrays nest too deeply")@,
            },
    {
        match self {
            ProtocolError::UnknownType => "unknown data type token",
            ProtocolError::BadLength => "malformed length field",
            ProtocolError::BadBulkEnd => "bulk string not terminated at its declared length",
            ProtocolError::BadNull => "null frame carries data",
            ProtocolError::TooDeep => "arrays nest too deeply",
        }
    }
}

impl ParseError {
    /// A short description of the failure, for logs and diagnostics.
    pub fn message(&self) -> (r: &'static str)
        ensures
            r@ == match self {
                ParseError::Incomplete => ("incomplete input")@,
                ParseError::Other(ProtocolError::UnknownType) => ("unknown data type token")@,
                ParseError::Other(ProtocolError::BadLength) => ("malformed length field")@,
                ParseError::Other(ProtocolError::BadBulkEnd) => (
                "bulk string not terminated at its declared length")@,
                ParseError::Other(ProtocolError::BadNull) => ("null frame carries data")@,
                ParseError::Other(ProtocolError::TooDeep) => ("arrays nest too deeply")@,
            },
    {
        match self {
            ParseError::Incomplete => "incomplete input",
            ParseError::Other(e) => e.message(),
        }
    }
}

/// Outcome of a specification-level scan: a value together with the
/// position just past it, a request for more input, or a malformed input.
pub enum Scan<T> {
    Done(T, int),
    More,
    Bad,
}

impl Frame {
    /// The model of this frame.
    pub open spec fn deep(&self) -> FrameModel
        decreases self,
    {
        match self {
            Frame::Bulk(b) => FrameModel::Bulk(b@),
            Frame::Array(fs) => FrameModel::Array(Frame::deep_seq(fs@)),
            Frame::Simple(t) => FrameModel::Simple(t@),
            Frame::Error(t) => FrameModel::Error(t@),
            Frame::Null => FrameModel::Null,
        }
    }

    /// The models of a sequence of frames, element by element.
    pub open spec fn deep_seq(fs: Seq<Frame>) -> Seq<FrameModel>
        decreases fs,
    {
        if fs.len() == 0 {
            Seq::empty()
        } else {
            seq![fs[0].deep()] + Frame::deep_seq(fs.drop_first())
        }
    }
}

pub proof fn lemma_deep_seq_index(fs: Seq<Frame>)
    ensures
        Frame::deep_seq(fs).len() == fs.len(),
        forall|i: int| 0 <= i < fs.len() ==> Frame::deep_seq(fs)[i] == #[trigger] fs[i].deep(),
    decreases fs,
{
    if fs.len() > 0 {
        lemma_deep_seq_index(fs.drop_first());
        assert forall|i: int| 0 <= i < fs.len() implies Frame::deep_seq(fs)[i] == #[trigger] fs[i].deep() by {
            if i > 0 {
                assert(Frame::deep_seq(fs)[i] == Frame::deep_seq(fs.drop_first())[i - 1]);
                assert(fs.drop_first()[i - 1] == fs[i]);
            }
        }
    }
}

pub proof fn lemma_deep_seq_push(fs: Seq<Frame>, f: Frame)
    ensures
        Frame::deep_seq(fs.push(f)) =~= Frame::deep_seq(fs).push(f.deep()),
{
    lemma_deep_seq_index(fs);
    lemma_deep_seq_index(fs.push(f));
    assert forall|i: int| 0 <= i < fs.len() + 1 implies #[trigger] Frame::deep_seq(fs.push(f))[i]
        == Frame::deep_seq(fs).push(f.deep())[i] by {
        assert(Frame::deep_seq(fs.push(f))[i] == fs.push(f)[i].deep());
        if i < fs.len() {
            assert(fs.push(f)[i] == fs[i]);
            assert(Frame::deep_seq(fs)[i] == fs[i].deep());
            assert(Frame::deep_seq(fs).push(f.deep())[i] == Frame::deep_seq(fs)[i]);
        } else {
            assert(fs.push(f)[i] == f);
            assert(Frame::deep_seq(fs).push(f.deep())[i] == f.deep());
        }
    }
}

/// Position of the first CRLF pair at or after `pos`, if the buffer
/// holds one.
pub open spec fn spec_crlf_pos(s: Seq<u8>, pos: int) -> Option<int>
    decreases s.len() - pos,
{
    if pos + 2 > s.len() {
        None
    } else if s[pos] == 13 && s[pos + 1] == 10 {
        Some(pos)
    } else {
        spec_crlf_pos(s, pos + 1)
    }
}

/// The bytes from `pos` up to the first CRLF, and the position just
/// past that CRLF; `More` when no CRLF has arrived yet.
pub open spec fn spec_get_line(s: Seq<u8>, pos: int) -> Scan<Seq<u8>> {
    match spec_crlf_pos(s, pos) {
        Option::None => Scan::More,
        Option::Some(p) => Scan::Done(s.subrange(pos, p), p + 2),
    }
}

/// A length field: a full line that must be non-empty, all decimal
/// digits, and no larger than `u64::MAX`.
pub open spec fn spec_parse_len(s: Seq<u8>, pos: int) -> Scan<int> {
    match spec_get_line(s, pos) {
        Scan::More => Scan::More,
        Scan::Bad => Scan::Bad,
        Scan::Done(line, p2) => {
            if line.len() > 0 && all_digits(line) && dec_value(line) <= u64::MAX {
                Scan::Done(dec_value(line), p2)
            } else {
                Scan::Bad
            }
        },
    }
}

/// The parse function of the protocol, on the mathematical model.
///
/// `depth` bounds how many levels of arrays may still open; a frame
/// needing more levels is malformed rather than incomplete.
pub open spec fn spec_parse(s: Seq<u8>, pos: int, depth: nat) -> Scan<FrameModel>
    decreases depth, 0nat,
{
    if pos >= s.len() {
        Scan::More
    } else {
        let b = s[pos];
        if b == ('*' as u8) {
            if depth == 0 {
                Scan::Bad
            } else {
                match spec_parse_len(s, pos + 1) {
                    Scan::More => Scan::More,
                    Scan::Bad => Scan::Bad,
                    Scan::Done(n, p2) => match spec_parse_items(
                        s,
                        p2,
                        n as nat,
                        (depth - 1) as nat,
                    ) {
                        Scan::More => Scan::More,
                        Scan::Bad => Scan::Bad,
                        Scan::Done(fs, p3) => Scan::Done(FrameModel::Array(fs), p3),
                    },
                }
            }
        } else if b == ('$' as u8) {
            match spec_parse_len(s, pos + 1) {
                Scan::More => Scan::More,
                Scan::Bad => Scan::Bad,
                Scan::Done(n, p2) => {
                    if p2 + n + 2 > s.len() {
                        Scan::More
                    } else if s[p2 + n] == 13 && s[p2 + n + 1] == 10 {
                        Scan::Done(FrameModel::Bulk(s.subrange(p2, p2 + n)), p2 + n + 2)
                    } else {
                        Scan::Bad
                    }
                },
            }
        } else if b == ('+' as u8) {
            match spec_get_line(s, pos + 1) {
                Scan::More => Scan::More,
                Scan::Bad => Scan::Bad,
                Scan::Done(line, p2) => Scan::Done(FrameModel::Simple(line), p2),
            }
        } else if b == ('-' as u8) {
            match spec_get_line(s, pos + 1) {
                Scan::More => Scan::More,
                Scan::Bad => Scan::Bad,
                Scan::Done(line, p2) => Scan::Done(FrameModel::Error(line), p2),
            }
        } else if b == ('_' as u8) {
            match spec_get_line(s, pos + 1) {
                Scan::More => Scan::More,
                Scan::Bad => Scan::Bad,
                Scan::Done(line, p2) => {
                    if line.len() == 0 {
                        Scan::Done(FrameModel::Null, p2)
                    } else {
                        Scan::Bad
                    }
                },
            }
        } else {
            Scan::Bad
        }
    }
}

/// `n` consecutive frames starting at `pos`.
pub open spec fn spec_parse_items(s: Seq<u8>, pos: int, n: nat, depth: nat) -> Scan<
    Seq<FrameModel>,
>
    decreases depth, n,
{
    if n == 0 {
        Scan::Done(Seq::empty(), pos)
    } else {
        match spec_parse(s, pos, depth) {
            Scan::More => Scan::More,
            Scan::Bad => Scan::Bad,
            Scan::Done(f, p2) => match spec_parse_items(s, p2, (n - 1) as nat, depth) {
                Scan::More => Scan::More,
                Scan::Bad => Scan::Bad,
                Scan::Done(fs, p3) => Scan::Done(seq![f] + fs, p3),
            },
        }
    }
}

/// How an executable parse result must reflect a scan of the model.
pub open spec fn parse_reflects(r: Result<(Frame, usize), ParseError>, sc: Scan<FrameModel>) -> bool {
    match sc {
        Scan::Done(m, p) => r matches Ok((f, q)) && f.deep() == m && q == p,
        Scan::More => r matches Err(e) && e is Incomplete,
        Scan::Bad => r matches Err(e) && e is Other,
    }
}

impl Frame {
    /// Position of the first CRLF pair at or after `pos`.
    pub fn crlf_pos(input: &[u8], pos: usize) -> (r: Option<usize>)
        requires
            pos <= input@.len(),
        ensures
            match r {
                Option::Some(p) => spec_crlf_pos(input@, pos as int) == Option::Some(p as int)
                    && pos <= p && p + 2 <= input@.len(),
                Option::None => spec_crlf_pos(input@, pos as int) is None,
            },
    {
        let mut i: usize = pos;
        loop
            invariant
                pos <= i <= input@.len(),
                spec_crlf_pos(input@, pos as int) == spec_crlf_pos(input@, i as int),
            decreases input@.len() - i,
        {
            if input.len() < 2 || i > input.len() - 2 {
                return None;
            }
            if input[i] == 13 && input[i + 1] == 10 {
                return Some(i);
            }
            i = i + 1;
        }
    }

    /// The bytes from `pos` up to the first CRLF, and the position just
    /// past that CRLF.
    pub fn get_line<'a>(input: &'a [u8], pos: usize) -> (r: Result<(&'a [u8], usize), ParseError>)
        requires
            pos <= input@.len(),
        ensures
            match r {
                Result::Ok((line, p2)) => spec_get_line(input@, pos as int) == Scan::Done(
                    line@,
                    p2 as int,
                ) && pos < p2 <= input@.len(),
                Result::Err(e) => e is Incomplete && spec_get_line(input@, pos as int) is More,
            },
    {
        match Self::crlf_pos(input, pos) {
            Option::None => Err(ParseError::Incomplete),
            Option::Some(p) => {
                let n = input.len();
                assert(p + 2 <= n);
                let line = vstd::slice::slice_subrange(input, pos, p);
                Ok((line, p + 2))
            },
        }
    }

    /// Reads a length field: one full line of decimal digits.
    pub fn parse_u64(input: &[u8], pos: usize) -> (r: Result<(u64, usize), ParseError>)
        requires
            pos <= input@.len(),
        ensures
            match r {
                Result::Ok((n, p2)) => spec_parse_len(input@, pos as int) == Scan::Done(
                    n as int,
                    p2 as int,
                ) && pos < p2 <= input@.len(),
                Result::Err(e) => match e {
                    ParseError::Incomplete => spec_parse_len(input@, pos as int) is More,
                    ParseError::Other(_) => spec_parse_len(input@, pos as int) is Bad,
                },
            },
    {
        let (line, p2) = match Self::get_line(input, pos) {
            Result::Ok(v) => v,
            Result::Err(e) => {
                return Err(e);
            },
        };
        match parse_decimal(line) {
            Option::Some(n) => Ok((n, p2)),
            Option::None => Err(ParseError::Other(ProtocolError::BadLength)),
        }
    }
}

} // verus!

verus! {

/// Prepends already-parsed models to the pending scan of the rest.
pub open spec fn scan_prepend(pre: Seq<FrameModel>, sc: Scan<Seq<FrameModel>>) -> Scan<
    Seq<FrameModel>,
> {
    match sc {
        Scan::Done(fs, p) => Scan::Done(pre + fs, p),
        Scan::More => Scan::More,
        Scan::Bad => Scan::Bad,
    }
}

pub proof fn lemma_scan_prepend_empty(sc: Scan<Seq<FrameModel>>)
    ensures
        scan_prepend(Seq::empty(), sc) == sc,
{
    match sc {
        Scan::Done(fs, p) => {
            assert(Seq::empty() + fs =~= fs);
        },
        _ => {},
    }
}

pub proof fn lemma_scan_prepend_assoc(a: Seq<FrameModel>, b: Seq<FrameModel>, sc: Scan<Seq<FrameModel>>)
    ensures
        scan_prepend(a, scan_prepend(b, sc)) == scan_prepend(a + b, sc),
{
    match sc {
        Scan::Done(fs, p) => {
            assert(a + (b + fs) =~= (a + b) + fs);
        },
        _ => {},
    }
}

/// Appends a copy of `add` to `out`.
pub fn push_all(out: &mut Vec<u8>, add: &[u8])
    ensures
        final(out)@ == old(out)@ + add@,
{
    let mut i: usize = 0;
    while i < add.len()
        invariant
            i <= add@.len(),
            out@ == old(out)@ + add@.subrange(0, i as int),
        decreases add@.len() - i,
    {
        out.push(add[i]);
        assert(out@ =~= old(out)@ + add@.subrange(0, i + 1));
        i = i + 1;
    }
    assert(out@ =~= old(out)@ + add@);
}

impl Frame {
    /// Parses one frame from `input` starting at `pos`, allowing at
    /// most `depth` levels of array nesting.
    fn parse_at(input: &[u8], pos: usize, depth: u32) -> (r: Result<(Frame, usize), ParseError>)
        requires
            pos <= input@.len(),
        ensures
            parse_reflects(r, spec_parse(input@, pos as int, depth as nat)),
            r matches Ok((f, q)) ==> pos < q <= input@.len(),
        decreases depth,
    {
        let ghost s = input@;
        if pos >= input.len() {
            return Err(ParseError::Incomplete);
        }
        let b = input[pos];
        if b == 42 {
            // '*': a counted array of sub-frames
            if depth == 0 {
                return Err(ParseError::Other(ProtocolError::TooDeep));
            }
            let (n, p2) = match Self::parse_u64(input, pos + 1) {
                Result::Ok(v) => v,
                Result::Err(e) => {
                    return Err(e);
                },
            };
            let ghost d = (depth - 1) as nat;
            let mut items: Vec<Frame> = Vec::new();
            let mut cur: usize = p2;
            let mut i: u64 = 0;
            proof {
                lemma_scan_prepend_empty(spec_parse_items(s, p2 as int, n as nat, d));
            }
            while i < n
                invariant
                    i <= n,
                    items@.len() == i,
                    pos < cur <= s.len(),
                    pos < s.len(),
                    input@ == s,
                    depth >= 1,
                    d == (depth - 1) as nat,
                    s[pos as int] == 42,
                    spec_parse_len(s, pos as int + 1) == Scan::Done(n as int, p2 as int),
                    spec_parse_items(s, p2 as int, n as nat, d) == scan_prepend(
                        Frame::deep_seq(items@),
                        spec_parse_items(s, cur as int, (n - i) as nat, d),
                    ),
                decreases n - i,
            {
                match Self::parse_at(input, cur, depth - 1) {
                    Result::Ok((f, q)) => {
                        proof {
                            assert(spec_parse_items(s, cur as int, (n - i) as nat, d)
                                == scan_prepend(
                                seq![f.deep()],
                                spec_parse_items(s, q as int, (n - i - 1) as nat, d),
                            ));
                            lemma_scan_prepend_assoc(
                                Frame::deep_seq(items@),
                                seq![f.deep()],
                                spec_parse_items(s, q as int, (n - i - 1) as nat, d),
                            );
                            lemma_deep_seq_push(items@, f);
                            assert(Frame::deep_seq(items@) + seq![f.deep()] =~= Frame::deep_seq(
                                items@.push(f),
                            ));
                        }
                        items.push(f);
                        cur = q;
                        i = i + 1;
                    },
                    Result::Err(e) => {
                        return Err(e);
                    },
                }
            }
            proof {
                assert(spec_parse_items(s, cur as int, 0nat, d) == Scan::<Seq<FrameModel>>::Done(
                    Seq::empty(),
                    cur as int,
                ));
                assert(Frame::deep_seq(items@) + Seq::empty() =~= Frame::deep_seq(items@));
            }
            Ok((Frame::Array(items), cur))
        } else if b == 36 {
            // '$': a length-prefixed bulk string
            let (n, p2) = match Self::parse_u64(input, pos + 1) {
                Result::Ok(v) => v,
                Result::Err(e) => {
                    return Err(e);
                },
            };
            let rem = input.len() - p2;
            if rem < 2 || n > (rem - 2) as u64 {
                return Err(ParseError::Incomplete);
            }
            let nn = n as usize;
            if input[p2 + nn] == 13 && input[p2 + nn + 1] == 10 {
                let body = vstd::slice::slice_to_vec(
                    vstd::slice::slice_subrange(input, p2, p2 + nn),
                );
                Ok((Frame::Bulk(body), p2 + nn + 2))
            } else {
                Err(ParseError::Other(ProtocolError::BadBulkEnd))
            }
        } else if b == 43 {
            // '+': a simple status line
            let (line, p2) = match Self::get_line(input, pos + 1) {
                Result::Ok(v) => v,
                Result::Err(e) => {
                    return Err(e);
                },
            };
            Ok((Frame::Simple(vstd::slice::slice_to_vec(line)), p2))
        } else if b == 45 {
            // '-': an error line
            let (line, p2) = match Self::get_line(input, pos + 1) {
                Result::Ok(v) => v,
                Result::Err(e) => {
                    return Err(e);
                },
            };
            Ok((Frame::Error(vstd::slice::slice_to_vec(line)), p2))
        } else if b == 95 {
            // '_': the null frame
            let (line, p2) = match Self::get_line(input, pos + 1) {
                Result::Ok(v) => v,
                Result::Err(e) => {
                    return Err(e);
                },
            };
            if line.len() == 0 {
                Ok((Frame::Null, p2))
            } else {
                Err(ParseError::Other(ProtocolError::BadNull))
            }
        } else {
            Err(ParseError::Other(ProtocolError::UnknownType))
        }
    }

    /// Parses one frame from `input` starting at `pos`.
    ///
    /// On success the returned position is just past the frame's last
    /// byte: that many bytes, and no more, may be discarded by the
    /// caller. `Incomplete` asks for more input; `Other` is fatal.
    pub fn parse(input: &[u8], pos: usize) -> (r: Result<(Frame, usize), ParseError>)
        requires
            pos <= input@.len(),
        ensures
            parse_reflects(r, spec_parse(input@, pos as int, MAX_DEPTH as nat)),
            r matches Ok((f, q)) ==> pos < q <= input@.len(),
    {
        Self::parse_at(input, pos, MAX_DEPTH)
    }
}

} // verus!

verus! {

/// Canonical wire encoding of a frame model.
pub open spec fn spec_encode(f: FrameModel) -> Seq<u8>
    decreases f,
{
    match f {
        FrameModel::Bulk(b) => seq![36u8] + crate::digits::dec_repr(b.len() as int) + seq![
            13u8,
            10u8,
        ] + b + seq![13u8, 10u8],
        FrameModel::Array(fs) => seq![42u8] + crate::digits::dec_repr(fs.len() as int) + seq![
            13u8,
            10u8,
        ] + spec_encode_seq(fs),
        FrameModel::Simple(t) => seq![43u8] + t + seq![13u8, 10u8],
        FrameModel::Error(t) => seq![45u8] + t + seq![13u8, 10u8],
        FrameModel::Null => seq![95u8, 13u8, 10u8],
    }
}

/// The encodings of consecutive frame models, concatenated.
pub open spec fn spec_encode_seq(fs: Seq<FrameModel>) -> Seq<u8>
    decreases fs,
{
    if fs.len() == 0 {
        Seq::empty()
    } else {
        spec_encode(fs[0]) + spec_encode_seq(fs.drop_first())
    }
}

pub proof fn lemma_encode_seq_push(fs: Seq<FrameModel>, f: FrameModel)
    ensures
        spec_encode_seq(fs.push(f)) =~= spec_encode_seq(fs) + spec_encode(f),
    decreases fs,
{
    if fs.len() == 0 {
        assert(fs.push(f)[0] == f);
        assert(fs.push(f).drop_first() =~= Seq::<FrameModel>::empty());
        assert(fs.push(f).len() == 1);
        assert(spec_encode_seq(fs.push(f)) == spec_encode(fs.push(f)[0]) + spec_encode_seq(
            fs.push(f).drop_first(),
        ));
        assert(spec_encode_seq(fs.push(f)) == spec_encode(f) + spec_encode_seq(
            Seq::<FrameModel>::empty(),
        ));
        assert(spec_encode(f) + Seq::<u8>::empty() =~= spec_encode(f));
        assert(spec_encode_seq(fs) + spec_encode(f) =~= spec_encode(f));
    } else {
        assert(fs.push(f)[0] == fs[0]);
        assert(fs.push(f).drop_first() =~= fs.drop_first().push(f));
        lemma_encode_seq_push(fs.drop_first(), f);
        assert(spec_encode_seq(fs.push(f)) == spec_encode(fs[0]) + (spec_encode_seq(fs.drop_first())
            + spec_encode(f)));
        assert(spec_encode(fs[0]) + (spec_encode_seq(fs.drop_first()) + spec_encode(f)) =~= (
        spec_encode(fs[0]) + spec_encode_seq(fs.drop_first())) + spec_encode(f));
    }
}

impl Frame {
    /// Appends this frame's canonical wire encoding to `out`.
    pub fn push_encoded(&self, out: &mut Vec<u8>)
        ensures
            final(out)@ == old(out)@ + spec_encode(self.deep()),
        decreases *self,
    {
        match self {
            Frame::Bulk(b) => {
                out.push(36);
                crate::digits::push_dec(out, b.len() as u64);
                out.push(13);
                out.push(10);
                push_all(out, b.as_slice());
                out.push(13);
                out.push(10);
                assert(out@ =~= old(out)@ + spec_encode(self.deep()));
            },
            Frame::Array(fs) => {
                out.push(42);
                crate::digits::push_dec(out, fs.len() as u64);
                out.push(13);
                out.push(10);
                let ghost mid = out@;
                let mut i: usize = 0;
                while i < fs.len()
                    invariant
                        *self == Frame::Array(*fs),
                        i <= fs@.len(),
                        out@ == mid + spec_encode_seq(Frame::deep_seq(fs@.subrange(0, i as int))),
                    decreases fs@.len() - i,
                {
                    let f = &fs[i];
                    proof {
                        assert(*self == Frame::Array(*fs));
                        assert(decreases_to!(*self => self->Array_0));
                        assert(self->Array_0 == *fs);
                        assert(decreases_to!(*fs => fs[i as int]));
                        assert(decreases_to!(*self => fs[i as int]));
                    }
                    f.push_encoded(out);
                    proof {
                        lemma_deep_seq_push(fs@.subrange(0, i as int), fs@[i as int]);
                        lemma_encode_seq_push(
                            Frame::deep_seq(fs@.subrange(0, i as int)),
                            fs@[i as int].deep(),
                        );
                        assert(fs@.subrange(0, i + 1) =~= fs@.subrange(0, i as int).push(
                            fs@[i as int],
                        ));
                    }
                    i = i + 1;
                }
                proof {
                    assert(fs@.subrange(0, fs@.len() as int) =~= fs@);
                    lemma_deep_seq_index(fs@);
                }
                assert(out@ =~= old(out)@ + spec_encode(self.deep()));
            },
            Frame::Simple(t) => {
                out.push(43);
                push_all(out, t.as_slice());
                out.push(13);
                out.push(10);
                assert(out@ =~= old(out)@ + spec_encode(self.deep()));
            },
            Frame::Error(t) => {
                out.push(45);
                push_all(out, t.as_slice());
                out.push(13);
                out.push(10);
                assert(out@ =~= old(out)@ + spec_encode(self.deep()));
            },
            Frame::Null => {
                out.push(95);
                out.push(13);
                out.push(10);
                assert(out@ =~= old(out)@ + spec_encode(self.deep()));
            },
        }
    }

    /// The canonical wire encoding of this frame.
    pub fn serialize(&self) -> (out: Vec<u8>)
        ensures
            out@ == spec_encode(self.deep()),
    {
        let mut out: Vec<u8> = Vec::new();
        self.push_encoded(&mut out);
        assert(out@ =~= spec_encode(self.deep()));
        out
    }
}

} // verus!

verus! {

/// `t` occurs in `s` starting at `pos`.
pub open spec fn bytes_at(s: Seq<u8>, pos: int, t: Seq<u8>) -> bool {
    0 <= pos && pos + t.len() <= s.len() && s.subrange(pos, pos + t.len()) == t
}

pub proof fn lemma_bytes_at_split(s: Seq<u8>, pos: int, a: Seq<u8>, b: Seq<u8>)
    requires
        bytes_at(s, pos, a + b),
    ensures
        bytes_at(s, pos, a),
        bytes_at(s, pos + a.len(), b),
{
    assert(s.subrange(pos, pos + a.len()) =~= a) by {
        assert forall|i: int| 0 <= i < a.len() implies s.subrange(pos, pos + a.len())[i] == a[i] by {
            assert(s.subrange(pos, pos + (a + b).len())[i] == (a + b)[i]);
        }
    }
    assert(s.subrange(pos + a.len(), pos + a.len() + b.len()) =~= b) by {
        assert forall|i: int|
            0 <= i < b.len() implies s.subrange(pos + a.len(), pos + a.len() + b.len())[i]
            == b[i] by {
            assert(s.subrange(pos, pos + (a + b).len())[a.len() + i] == (a + b)[a.len() + i]);
        }
    }
}

pub proof fn lemma_bytes_at_byte(s: Seq<u8>, pos: int, t: Seq<u8>)
    requires
        bytes_at(s, pos, t),
    ensures
        forall|i: int| 0 <= i < t.len() ==> s[pos + i] == #[trigger] t[i],
{
    assert forall|i: int| 0 <= i < t.len() implies s[pos + i] == #[trigger] t[i] by {
        assert(s.subrange(pos, pos + t.len())[i] == t[i]);
    }
}

/// No CRLF pair occurs inside `t`, so a line scan runs past all of it.
pub open spec fn no_crlf(t: Seq<u8>) -> bool {
    forall|i: int| 0 <= i < t.len() - 1 ==> !(#[trigger] t[i] == 13 && t[i + 1] == 10)
}

pub proof fn lemma_crlf_pos_bounds(s: Seq<u8>, pos: int, p: int)
    requires
        spec_crlf_pos(s, pos) == Option::Some(p),
    ensures
        pos <= p,
        p + 2 <= s.len(),
        s[p] == 13 && s[p + 1] == 10,
    decreases s.len() - pos,
{
    if pos + 2 > s.len() {
        // no CRLF can be found here
    } else if s[pos] == 13 && s[pos + 1] == 10 {
    } else {
        lemma_crlf_pos_bounds(s, pos + 1, p);
    }
}

/// A line known byte for byte: the scan stops exactly at its CRLF.
pub proof fn lemma_crlf_pos_exact(s: Seq<u8>, pos: int, e: int)
    requires
        0 <= pos <= e,
        e + 2 <= s.len(),
        no_crlf(s.subrange(pos, e)),
        s[e] == 13,
        s[e + 1] == 10,
    ensures
        spec_crlf_pos(s, pos) == Option::Some(e),
    decreases e - pos,
{
    if pos == e {
    } else {
        let t = s.subrange(pos, e);
        if pos + 1 < e {
            assert(t[0] == s[pos] && t[1] == s[pos + 1]);
            assert(!(t[0] == 13 && t[1] == 10));
        } else {
            // the pair straddles the line end: (s[e-1], 13) is never CRLF
            assert(s[pos + 1] == 13);
        }
        assert(s.subrange(pos + 1, e) =~= t.subrange(1, t.len() as int));
        assert(no_crlf(s.subrange(pos + 1, e))) by {
            let u = s.subrange(pos + 1, e);
            assert forall|i: int| 0 <= i < u.len() - 1 implies !(#[trigger] u[i] == 13 && u[i + 1]
                == 10) by {
                assert(u[i] == t[i + 1] && u[i + 1] == t[i + 2]);
                assert(!(t[i + 1] == 13 && t[i + 2] == 10));
            }
        }
        lemma_crlf_pos_exact(s, pos + 1, e);
    }
}

/// A line of the buffer placed before a CRLF is what `spec_get_line` yields.
pub proof fn lemma_get_line_exact(s: Seq<u8>, pos: int, line: Seq<u8>)
    requires
        bytes_at(s, pos, line + seq![13u8, 10u8]),
        no_crlf(line),
    ensures
        spec_get_line(s, pos) == Scan::<Seq<u8>>::Done(line, pos + line.len() + 2),
{
    lemma_bytes_at_split(s, pos, line, seq![13u8, 10u8]);
    lemma_bytes_at_byte(s, pos + line.len(), seq![13u8, 10u8]);
    assert(s[pos + line.len()] == 13);
    assert(s[pos + line.len() + 1] == 10);
    lemma_crlf_pos_exact(s, pos, pos + line.len());
    assert(s.subrange(pos, pos + line.len()) == line);
}

/// Digit lines hold no CR, hence no CRLF.
pub proof fn lemma_digits_no_crlf(t: Seq<u8>)
    requires
        all_digits(t),
    ensures
        no_crlf(t),
{
    assert forall|i: int| 0 <= i < t.len() - 1 implies !(#[trigger] t[i] == 13 && t[i + 1]
        == 10) by {
        assert(is_digit(t[i]));
    }
}

/// A canonical length field is read back as its value.
pub proof fn lemma_parse_len_exact(s: Seq<u8>, pos: int, n: int)
    requires
        0 <= n <= u64::MAX,
        bytes_at(s, pos, crate::digits::dec_repr(n) + seq![13u8, 10u8]),
    ensures
        spec_parse_len(s, pos) == Scan::<int>::Done(
            n,
            pos + crate::digits::dec_repr(n).len() + 2,
        ),
{
    crate::digits::lemma_dec_repr_ok(n);
    lemma_digits_no_crlf(crate::digits::dec_repr(n));
    lemma_get_line_exact(s, pos, crate::digits::dec_repr(n));
}

} // verus!

verus! {

/// A frame model the codec can round-trip: bulk bodies are unrestricted,
/// simple and error lines contain no CRLF, and every length fits a `u64`.
pub open spec fn frame_wf(f: FrameModel) -> bool
    decreases f,
{
    match f {
        FrameModel::Bulk(b) => b.len() <= u64::MAX,
        FrameModel::Array(fs) => fs.len() <= u64::MAX && frames_wf(fs),
        FrameModel::Simple(t) => no_crlf(t),
        FrameModel::Error(t) => no_crlf(t),
        FrameModel::Null => true,
    }
}

pub open spec fn frames_wf(fs: Seq<FrameModel>) -> bool
    decreases fs,
{
    if fs.len() == 0 {
        true
    } else {
        frame_wf(fs[0]) && frames_wf(fs.drop_first())
    }
}

/// How many levels of arrays a frame opens.
pub open spec fn frame_depth(f: FrameModel) -> nat
    decreases f,
{
    match f {
        FrameModel::Array(fs) => 1 + frames_depth(fs),
        _ => 0,
    }
}

pub open spec fn frames_depth(fs: Seq<FrameModel>) -> nat
    decreases fs,
{
    if fs.len() == 0 {
        0
    } else if frame_depth(fs[0]) >= frames_depth(fs.drop_first()) {
        frame_depth(fs[0])
    } else {
        frames_depth(fs.drop_first())
    }
}

pub proof fn lemma_frames_wf_index(fs: Seq<FrameModel>)
    ensures
        frames_wf(fs) ==> forall|i: int| 0 <= i < fs.len() ==> frame_wf(#[trigger] fs[i]),
        frames_wf(fs) ==> forall|i: int|
            0 <= i < fs.len() ==> frame_depth(#[trigger] fs[i]) <= frames_depth(fs),
    decreases fs,
{
    if fs.len() > 0 {
        lemma_frames_wf_index(fs.drop_first());
        if frames_wf(fs) {
            assert forall|i: int| 0 <= i < fs.len() implies frame_wf(#[trigger] fs[i])
                && frame_depth(fs[i]) <= frames_depth(fs) by {
                if i > 0 {
                    assert(fs.drop_first()[i - 1] == fs[i]);
                }
            }
        }
    }
}

/// Encoding then parsing yields the frame back, wherever the encoding
/// stands in a larger buffer.
pub proof fn lemma_encode_parse(f: FrameModel, s: Seq<u8>, pos: int, depth: nat)
    requires
        frame_wf(f),
        frame_depth(f) <= depth,
        bytes_at(s, pos, spec_encode(f)),
    ensures
        spec_parse(s, pos, depth) == Scan::Done(f, pos + spec_encode(f).len()),
    decreases f,
{
    match f {
        FrameModel::Bulk(b) => {
            let repr = crate::digits::dec_repr(b.len() as int);
            let head = seq![36u8] + repr + seq![13u8, 10u8];
            assert(spec_encode(f) =~= seq![36u8] + ((repr + seq![13u8, 10u8]) + (b + seq![
                13u8,
                10u8,
            ])));
            lemma_bytes_at_split(
                s,
                pos,
                seq![36u8],
                (repr + seq![13u8, 10u8]) + (b + seq![13u8, 10u8]),
            );
            lemma_bytes_at_byte(s, pos, seq![36u8]);
            lemma_bytes_at_split(s, pos + 1, repr + seq![13u8, 10u8], b + seq![13u8, 10u8]);
            lemma_parse_len_exact(s, pos + 1, b.len() as int);
            let p2 = pos + 1 + repr.len() + 2;
            lemma_bytes_at_split(s, p2, b, seq![13u8, 10u8]);
            lemma_bytes_at_byte(s, p2 + b.len(), seq![13u8, 10u8]);
            assert(seq![36u8][0] == 36u8);
            assert(s[pos + 0] == 36);
            assert(s[p2 + b.len()] == 13 && s[p2 + b.len() + 1] == 10);
            assert(s.subrange(p2, p2 + b.len()) == b);
            assert(pos + spec_encode(f).len() == p2 + b.len() + 2);
        },
        FrameModel::Array(fs) => {
            let repr = crate::digits::dec_repr(fs.len() as int);
            assert(spec_encode(f) =~= seq![42u8] + ((repr + seq![13u8, 10u8]) + spec_encode_seq(
                fs,
            )));
            lemma_bytes_at_split(
                s,
                pos,
                seq![42u8],
                (repr + seq![13u8, 10u8]) + spec_encode_seq(fs),
            );
            lemma_bytes_at_byte(s, pos, seq![42u8]);
            lemma_bytes_at_split(s, pos + 1, repr + seq![13u8, 10u8], spec_encode_seq(fs));
            lemma_parse_len_exact(s, pos + 1, fs.len() as int);
            let p2 = pos + 1 + repr.len() + 2;
            lemma_frames_wf_index(fs);
            lemma_encode_parse_items(fs, s, p2, (depth - 1) as nat);
            assert(seq![42u8][0] == 42u8);
            assert(s[pos + 0] == 42);
            assert(depth >= 1);
            assert(pos + spec_encode(f).len() == p2 + spec_encode_seq(fs).len());
        },
        FrameModel::Simple(t) => {
            assert(spec_encode(f) =~= seq![43u8] + (t + seq![13u8, 10u8]));
            lemma_bytes_at_split(s, pos, seq![43u8], t + seq![13u8, 10u8]);
            lemma_bytes_at_byte(s, pos, seq![43u8]);
            lemma_get_line_exact(s, pos + 1, t);
            assert(seq![43u8][0] == 43u8);
            assert(s[pos + 0] == 43);
        },
        FrameModel::Error(t) => {
            assert(spec_encode(f) =~= seq![45u8] + (t + seq![13u8, 10u8]));
            lemma_bytes_at_split(s, pos, seq![45u8], t + seq![13u8, 10u8]);
            lemma_bytes_at_byte(s, pos, seq![45u8]);
            lemma_get_line_exact(s, pos + 1, t);
            assert(seq![45u8][0] == 45u8);
            assert(s[pos + 0] == 45);
        },
        FrameModel::Null => {
            assert(spec_encode(f) =~= seq![95u8] + (Seq::<u8>::empty() + seq![13u8, 10u8]));
            lemma_bytes_at_split(s, pos, seq![95u8], Seq::<u8>::empty() + seq![13u8, 10u8]);
            lemma_bytes_at_byte(s, pos, seq![95u8]);
            lemma_get_line_exact(s, pos + 1, Seq::<u8>::empty());
            assert(seq![95u8][0] == 95u8);
            assert(s[pos + 0] == 95);
        },
    }
}

/// Encodings of consecutive frames parse back to those frames.
pub proof fn lemma_encode_parse_items(fs: Seq<FrameModel>, s: Seq<u8>, pos: int, depth: nat)
    requires
        frames_wf(fs),
        frames_depth(fs) <= depth,
        bytes_at(s, pos, spec_encode_seq(fs)),
    ensures
        spec_parse_items(s, pos, fs.len(), depth) == Scan::Done(
            fs,
            pos + spec_encode_seq(fs).len(),
        ),
    decreases fs,
{
    if fs.len() == 0 {
        assert(fs =~= Seq::<FrameModel>::empty());
        assert(spec_encode_seq(fs).len() == 0);
    } else {
        lemma_bytes_at_split(s, pos, spec_encode(fs[0]), spec_encode_seq(fs.drop_first()));
        lemma_encode_parse(fs[0], s, pos, depth);
        let p2 = pos + spec_encode(fs[0]).len();
        lemma_encode_parse_items(fs.drop_first(), s, p2, depth);
        assert(seq![fs[0]] + fs.drop_first() =~= fs);
        assert((fs.len() - 1) as nat == fs.drop_first().len());
        assert(spec_encode_seq(fs).len() == spec_encode(fs[0]).len() + spec_encode_seq(
            fs.drop_first(),
        ).len());
        assert(spec_parse_items(s, p2, (fs.len() - 1) as nat, depth) == Scan::Done(
            fs.drop_first(),
            p2 + spec_encode_seq(fs.drop_first()).len(),
        ));
        assert(spec_parse_items(s, pos, fs.len(), depth) == Scan::Done(
            seq![fs[0]] + fs.drop_first(),
            p2 + spec_encode_seq(fs.drop_first()).len(),
        ));
        assert(seq![fs[0]] + fs.drop_first() == fs);
        assert(pos + spec_encode_seq(fs).len() == p2 + spec_encode_seq(fs.drop_first()).len());
    }
}

/// Round trip: a well-formed frame that nests within the parser's
/// depth bound, encoded and then parsed (with any bytes following),
/// yields exactly itself and consumes exactly its encoding.
pub proof fn lemma_round_trip(f: FrameModel, tail: Seq<u8>)
    requires
        frame_wf(f),
        frame_depth(f) <= MAX_DEPTH,
    ensures
        spec_parse(spec_encode(f) + tail, 0, MAX_DEPTH as nat) == Scan::Done(
            f,
            spec_encode(f).len() as int,
        ),
{
    let s = spec_encode(f) + tail;
    assert(s.subrange(0, spec_encode(f).len() as int) =~= spec_encode(f));
    lemma_encode_parse(f, s, 0, MAX_DEPTH as nat);
}

} // verus!

verus! {

/// `s` is a prefix of `t`.
pub open spec fn seq_prefix_of(s: Seq<u8>, t: Seq<u8>) -> bool {
    s.len() <= t.len() && t.subrange(0, s.len() as int) == s
}

pub proof fn lemma_prefix_bytes(s: Seq<u8>, t: Seq<u8>)
    requires
        seq_prefix_of(s, t),
    ensures
        forall|i: int| 0 <= i < s.len() ==> t[i] == #[trigger] s[i],
{
    assert forall|i: int| 0 <= i < s.len() implies t[i] == #[trigger] s[i] by {
        assert(t.subrange(0, s.len() as int)[i] == s[i]);
    }
}

pub proof fn lemma_crlf_pos_stable(s: Seq<u8>, t: Seq<u8>, pos: int, p: int)
    requires
        seq_prefix_of(s, t),
        0 <= pos,
        spec_crlf_pos(s, pos) == Option::Some(p),
    ensures
        spec_crlf_pos(t, pos) == Option::Some(p),
    decreases s.len() - pos,
{
    lemma_crlf_pos_bounds(s, pos, p);
    lemma_prefix_bytes(s, t);
    if s[pos] == 13 && s[pos + 1] == 10 {
        assert(pos == p);
    } else {
        lemma_crlf_pos_stable(s, t, pos + 1, p);
    }
}

pub proof fn lemma_get_line_stable(s: Seq<u8>, t: Seq<u8>, pos: int)
    requires
        seq_prefix_of(s, t),
        0 <= pos,
        spec_get_line(s, pos) is Done,
    ensures
        spec_get_line(t, pos) == spec_get_line(s, pos),
{
    let p = spec_crlf_pos(s, pos)->0;
    lemma_crlf_pos_bounds(s, pos, p);
    lemma_crlf_pos_stable(s, t, pos, p);
    lemma_prefix_bytes(s, t);
    assert(t.subrange(pos, p) =~= s.subrange(pos, p));
}

pub proof fn lemma_parse_len_stable(s: Seq<u8>, t: Seq<u8>, pos: int)
    requires
        seq_prefix_of(s, t),
        0 <= pos,
        spec_parse_len(s, pos) is Done,
    ensures
        spec_parse_len(t, pos) == spec_parse_len(s, pos),
{
    lemma_get_line_stable(s, t, pos);
}

/// A frame parsed out of a buffer is not disturbed by whatever bytes
/// arrive after it: feeding input piecemeal neither loses, changes,
/// nor duplicates a frame.
pub proof fn lemma_parse_prefix_stable(s: Seq<u8>, t: Seq<u8>, pos: int, depth: nat)
    requires
        seq_prefix_of(s, t),
        0 <= pos,
        spec_parse(s, pos, depth) is Done,
    ensures
        spec_parse(t, pos, depth) == spec_parse(s, pos, depth),
    decreases depth, 0nat,
{
    lemma_prefix_bytes(s, t);
    assert(pos < s.len());
    let b = s[pos];
    if b == ('*' as u8) {
        lemma_parse_len_stable(s, t, pos + 1);
        lemma_parse_len_bounds(s, pos + 1);
        let n = spec_parse_len(s, pos + 1)->Done_0;
        let p2 = spec_parse_len(s, pos + 1)->Done_1;
        lemma_parse_items_prefix_stable(s, t, p2, n as nat, (depth - 1) as nat);
    } else if b == ('$' as u8) {
        lemma_parse_len_stable(s, t, pos + 1);
        lemma_parse_len_bounds(s, pos + 1);
        let n = spec_parse_len(s, pos + 1)->Done_0;
        let p2 = spec_parse_len(s, pos + 1)->Done_1;
        assert(p2 + n + 2 <= s.len());
        assert(t.subrange(p2, p2 + n) =~= s.subrange(p2, p2 + n));
    } else if b == ('+' as u8) || b == ('-' as u8) || b == ('_' as u8) {
        lemma_get_line_stable(s, t, pos + 1);
    }
}

pub proof fn lemma_parse_items_prefix_stable(s: Seq<u8>, t: Seq<u8>, pos: int, n: nat, depth: nat)
    requires
        seq_prefix_of(s, t),
        0 <= pos,
        spec_parse_items(s, pos, n, depth) is Done,
    ensures
        spec_parse_items(t, pos, n, depth) == spec_parse_items(s, pos, n, depth),
    decreases depth, n,
{
    if n == 0 {
    } else {
        lemma_parse_prefix_stable(s, t, pos, depth);
        let p2 = spec_parse(s, pos, depth)->Done_1;
        lemma_parse_bounds(s, pos, depth);
        lemma_parse_items_prefix_stable(s, t, p2, (n - 1) as nat, depth);
    }
}

/// A successful parse lands inside the buffer and past its start.
pub proof fn lemma_parse_bounds(s: Seq<u8>, pos: int, depth: nat)
    requires
        0 <= pos,
        spec_parse(s, pos, depth) is Done,
    ensures
        pos < spec_parse(s, pos, depth)->Done_1 <= s.len(),
    decreases depth, 0nat,
{
    let b = s[pos];
    if b == ('*' as u8) {
        let p2 = spec_parse_len(s, pos + 1)->Done_1;
        lemma_parse_len_bounds(s, pos + 1);
        let n = spec_parse_len(s, pos + 1)->Done_0;
        lemma_parse_items_bounds(s, p2, n as nat, (depth - 1) as nat);
    } else if b == ('$' as u8) {
        lemma_parse_len_bounds(s, pos + 1);
    } else {
        lemma_get_line_bounds(s, pos + 1);
    }
}

pub proof fn lemma_parse_items_bounds(s: Seq<u8>, pos: int, n: nat, depth: nat)
    requires
        0 <= pos,
        spec_parse_items(s, pos, n, depth) is Done,
        pos <= s.len(),
    ensures
        pos <= spec_parse_items(s, pos, n, depth)->Done_1 <= s.len(),
    decreases depth, n,
{
    if n == 0 {
    } else {
        lemma_parse_bounds(s, pos, depth);
        let p2 = spec_parse(s, pos, depth)->Done_1;
        lemma_parse_items_bounds(s, p2, (n - 1) as nat, depth);
    }
}

pub proof fn lemma_get_line_bounds(s: Seq<u8>, pos: int)
    requires
        0 <= pos,
        spec_get_line(s, pos) is Done,
    ensures
        pos < spec_get_line(s, pos)->Done_1 <= s.len(),
{
    let p = spec_crlf_pos(s, pos)->0;
    lemma_crlf_pos_bounds(s, pos, p);
}

pub proof fn lemma_parse_len_bounds(s: Seq<u8>, pos: int)
    requires
        0 <= pos,
        spec_parse_len(s, pos) is Done,
    ensures
        pos < spec_parse_len(s, pos)->Done_1 <= s.len(),
        0 <= spec_parse_len(s, pos)->Done_0 <= u64::MAX,
{
    lemma_get_line_bounds(s, pos);
    let line = spec_get_line(s, pos)->Done_0;
    crate::digits::lemma_dec_value_nonneg(line);
}

} // verus!

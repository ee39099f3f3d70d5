//! The wire format: a one-byte type tag, CR LF terminated lines, and
//! length-prefixed payloads, with arrays nesting values recursively.

use vstd::prelude::*;
use vstd::utf8::*;

verus! {

broadcast use vstd::utf8::group_utf8_lib;

/// A value as it travels on the wire.
#[derive(Debug)]
pub enum RespValue {
    Simple(String),
    Error(String),
    Integer(i64),
    Bulk(Vec<u8>),
    Array(Vec<RespValue>),
}

/// The mathematical content of a `RespValue`.
pub enum Frame {
    Simple(Seq<char>),
    Error(Seq<char>),
    Integer(int),
    Bulk(Seq<u8>),
    Array(Seq<Frame>),
}

/// The content of a value.
pub open spec fn frame_of(v: RespValue) -> Frame
    decreases v, 0int,
{
    match v {
        RespValue::Simple(s) => Frame::Simple(s@),
        RespValue::Error(s) => Frame::Error(s@),
        RespValue::Integer(n) => Frame::Integer(n as int),
        RespValue::Bulk(b) => Frame::Bulk(b@),
        RespValue::Array(a) => Frame::Array(frames_from(a@, 0)),
    }
}

/// The contents of `s[i..]`, in order.
pub open spec fn frames_from(s: Seq<RespValue>, i: int) -> Seq<Frame>
    decreases s, s.len() - i,
{
    if 0 <= i < s.len() {
        seq![frame_of(s[i])] + frames_from(s, i + 1)
    } else {
        Seq::empty()
    }
}

impl View for RespValue {
    type V = Frame;

    open spec fn view(&self) -> Frame {
        frame_of(*self)
    }
}

/// The two bytes that end every line.
pub open spec fn crlf() -> Seq<u8> {
    seq![13u8, 10u8]
}

/// The decimal digits of `n`, most significant first, with no leading zero.
pub open spec fn nat_text(n: nat) -> Seq<u8>
    decreases n,
{
    if n < 10 {
        seq![(48 + n) as u8]
    } else {
        nat_text(n / 10).push((48 + n % 10) as u8)
    }
}

/// The decimal text of `n`, with a leading '-' where it is negative.
pub open spec fn int_text(n: int) -> Seq<u8> {
    if n < 0 {
        seq![45u8] + nat_text((-n) as nat)
    } else {
        nat_text(n as nat)
    }
}

/// The bytes of a value on the wire.
pub open spec fn encode_frame(f: Frame) -> Seq<u8>
    decreases f, 0int,
{
    match f {
        Frame::Simple(s) => seq![43u8] + encode_utf8(s) + crlf(),
        Frame::Error(s) => seq![45u8] + encode_utf8(s) + crlf(),
        Frame::Integer(n) => seq![58u8] + int_text(n) + crlf(),
        Frame::Bulk(b) => seq![36u8] + nat_text(b.len()) + crlf() + b + crlf(),
        Frame::Array(items) => seq![42u8] + nat_text(items.len()) + crlf() + encode_frames(items, 0),
    }
}

/// The bytes of `items[i..]`, one value after another.
pub open spec fn encode_frames(items: Seq<Frame>, i: int) -> Seq<u8>
    decreases items, items.len() - i,
{
    if 0 <= i < items.len() {
        encode_frame(items[i]) + encode_frames(items, i + 1)
    } else {
        Seq::empty()
    }
}

/// `frames_from` holds one content per remaining value, in order.
pub proof fn lemma_frames_from(s: Seq<RespValue>, i: int)
    requires
        0 <= i <= s.len(),
    ensures
        frames_from(s, i).len() == s.len() - i,
        forall|j: int| 0 <= j < s.len() - i ==> #[trigger] frames_from(s, i)[j] == frame_of(s[i + j]),
    decreases s.len() - i,
{
    if i < s.len() {
        lemma_frames_from(s, i + 1);
        assert forall|j: int| 0 <= j < s.len() - i implies #[trigger] frames_from(s, i)[j] == frame_of(s[i + j]) by {
            if j > 0 {
                assert(frames_from(s, i)[j] == frames_from(s, i + 1)[j - 1]);
            }
        }
    }
}

/// Collects the bytes of values, in the order written.
pub struct RespWriter {
    pub out: Vec<u8>,
}

impl View for RespWriter {
    type V = Seq<u8>;

    open spec fn view(&self) -> Seq<u8> {
        self.out@
    }
}

impl RespWriter {
    /// A writer that has written nothing.
    pub fn new() -> (r: RespWriter)
        ensures
            r@ == Seq::<u8>::empty(),
    {
        RespWriter { out: Vec::new() }
    }

    fn put_line_end(&mut self)
        ensures
            final(self)@ == old(self)@ + crlf(),
    {
        self.out.push(13u8);
        self.out.push(10u8);
        assert(self@ =~= old(self)@ + crlf());
    }

    fn put_bytes(&mut self, b: &[u8])
        ensures
            final(self)@ == old(self)@ + b@,
    {
        let mut i: usize = 0;
        while i < b.len()
            invariant
                i <= b@.len(),
                self@ == old(self)@ + b@.subrange(0, i as int),
            decreases b@.len() - i,
        {
            self.out.push(b[i]);
            i = i + 1;
            assert(self@ =~= old(self)@ + b@.subrange(0, i as int));
        }
        assert(b@.subrange(0, i as int) =~= b@);
    }

    fn put_decimal(&mut self, n: u64)
        ensures
            final(self)@ == old(self)@ + nat_text(n as nat),
        decreases n,
    {
        if n >= 10 {
            self.put_decimal(n / 10);
        }
        self.out.push(48u8 + (n % 10) as u8);
        assert(self@ =~= old(self)@ + nat_text(n as nat));
    }

    /// Writes `$`, the length, CR LF, the bytes, CR LF.
    #[allow(non_snake_case)]
    pub fn writeBulkString(&mut self, bulk: &Vec<u8>)
        ensures
            final(self)@ == old(self)@ + encode_frame(Frame::Bulk(bulk@)),
    {
        self.out.push(36u8);
        self.put_decimal(bulk.len() as u64);
        self.put_line_end();
        self.put_bytes(bulk.as_slice());
        self.put_line_end();
        assert(self@ =~= old(self)@ + encode_frame(Frame::Bulk(bulk@)));
    }

    /// Writes `+`, the text, CR LF.
    #[allow(non_snake_case)]
    pub fn writeSimpleString(&mut self, simple: &str)
        ensures
            final(self)@ == old(self)@ + encode_frame(Frame::Simple(simple@)),
    {
        self.out.push(43u8);
        self.put_bytes(simple.as_bytes());
        self.put_line_end();
        assert(self@ =~= old(self)@ + encode_frame(Frame::Simple(simple@)));
    }

    /// Writes `:`, the decimal value, CR LF.
    #[allow(non_snake_case)]
    pub fn writeInteger(&mut self, val: i64)
        ensures
            final(self)@ == old(self)@ + encode_frame(Frame::Integer(val as int)),
    {
        self.out.push(58u8);
        if val < 0 {
            self.out.push(45u8);
            self.put_decimal((0i128 - val as i128) as u64);
        } else {
            self.put_decimal(val as u64);
        }
        self.put_line_end();
        assert(self@ =~= old(self)@ + encode_frame(Frame::Integer(val as int)));
    }

    /// Writes `-`, the text, CR LF.
    #[allow(non_snake_case)]
    pub fn writeError(&mut self, err: &str)
        ensures
            final(self)@ == old(self)@ + encode_frame(Frame::Error(err@)),
    {
        self.out.push(45u8);
        self.put_bytes(err.as_bytes());
        self.put_line_end();
        assert(self@ =~= old(self)@ + encode_frame(Frame::Error(err@)));
    }

    /// Writes `*`, the count, CR LF, and each element in turn. Nothing
    /// follows the last element: the array ends where its last element ends.
    #[allow(non_snake_case)]
    pub fn writeArray(&mut self, arr: &Vec<RespValue>)
        ensures
            final(self)@ == old(self)@ + encode_frame(Frame::Array(frames_from(arr@, 0))),
        decreases arr@, 1int,
    {
        proof {
            lemma_frames_from(arr@, 0);
        }
        let ghost fs = frames_from(arr@, 0);
        self.out.push(42u8);
        self.put_decimal(arr.len() as u64);
        self.put_line_end();
        let ghost head = self@;
        let mut i: usize = 0;
        while i < arr.len()
            invariant
                fs == frames_from(arr@, 0),
                fs.len() == arr@.len(),
                forall|j: int| 0 <= j < arr@.len() ==> #[trigger] fs[j] == frame_of(arr@[j]),
                i <= arr@.len(),
                self@ + encode_frames(fs, i as int) == head + encode_frames(fs, 0),
            decreases arr@.len() - i,
        {
            let ghost before = self@;
            self.put(&arr[i]);
            assert(before + encode_frames(fs, i as int) =~= self@ + encode_frames(fs, i + 1));
            i = i + 1;
        }
        assert(self@ =~= self@ + encode_frames(fs, i as int));
        assert(self@ =~= old(self)@ + encode_frame(Frame::Array(fs)));
    }

    fn put(&mut self, v: &RespValue)
        ensures
            final(self)@ == old(self)@ + encode_frame(v@),
        decreases *v, 0int,
    {
        match v {
            RespValue::Array(a) => self.writeArray(a),
            RespValue::Bulk(b) => self.writeBulkString(b),
            RespValue::Integer(n) => self.writeInteger(*n),
            RespValue::Simple(s) => self.writeSimpleString(s.as_str()),
            RespValue::Error(e) => self.writeError(e.as_str()),
        }
    }

    /// Writes one value.
    pub fn write(&mut self, val: RespValue)
        ensures
            final(self)@ == old(self)@ + encode_frame(val@),
    {
        self.put(&val);
    }
}

/// Why a value could not be read.
#[derive(Debug, Clone, Copy, PartialEq, Eq, Structural)]
pub enum RespError {
    /// An unknown type tag, a line not ended by CR LF, a malformed length or
    /// count, or text that is not UTF-8.
    Protocol,
    /// An integer field that is not a 64-bit signed decimal.
    Parse,
    /// The input ends before the value does.
    Incomplete,
}

/// The position of the first line feed at or after `i`.
pub open spec fn line_feed_from(b: Seq<u8>, i: int) -> Option<int>
    decreases b.len() - i,
{
    if i < 0 || i >= b.len() {
        None
    } else if b[i] == 10 {
        Some(i)
    } else {
        line_feed_from(b, i + 1)
    }
}

/// The line that starts at `i`, without its CR LF, and where the next one
/// starts.
pub open spec fn read_line(b: Seq<u8>, i: int) -> Result<(Seq<u8>, int), RespError> {
    match line_feed_from(b, i) {
        None => Err(RespError::Incomplete),
        Some(j) => if i < j && b[j - 1] == 13 {
            Ok((b.subrange(i, j - 1), j + 1))
        } else {
            Err(RespError::Protocol)
        },
    }
}

/// Whether `s` is one or more ASCII digits.
pub open spec fn is_digits(s: Seq<u8>) -> bool {
    s.len() > 0 && forall|i: int| 0 <= i < s.len() ==> 48 <= #[trigger] s[i] <= 57
}

/// The number that the digits of `s` write in decimal.
pub open spec fn digits_value(s: Seq<u8>) -> nat
    decreases s.len(),
{
    if s.len() == 0 {
        0
    } else {
        digits_value(s.drop_last()) * 10 + (s.last() - 48) as nat
    }
}

/// A length or count: decimal digits whose value fits a `usize`.
pub open spec fn parse_count(s: Seq<u8>) -> Option<nat> {
    if is_digits(s) && digits_value(s) <= usize::MAX {
        Some(digits_value(s))
    } else {
        None
    }
}

/// An integer field: an optional sign and decimal digits, in the range of
/// `i64`.
pub open spec fn parse_integer(s: Seq<u8>) -> Option<int> {
    if s.len() > 0 && (s[0] == 45 || s[0] == 43) {
        let d = s.drop_first();
        if !is_digits(d) {
            None
        } else if s[0] == 45 {
            if digits_value(d) <= 0x8000_0000_0000_0000 {
                Some(-digits_value(d))
            } else {
                None
            }
        } else if digits_value(d) <= i64::MAX {
            Some(digits_value(d) as int)
        } else {
            None
        }
    } else if is_digits(s) && digits_value(s) <= i64::MAX {
        Some(digits_value(s) as int)
    } else {
        None
    }
}

/// The value that starts at `pos`, and where the bytes after it start.
pub open spec fn parse_frame(b: Seq<u8>, pos: int) -> Result<(Frame, int), RespError>
    decreases b.len() - pos, 0int,
{
    if pos < 0 || pos >= b.len() {
        Err(RespError::Incomplete)
    } else {
        let tag = b[pos];
        if tag != 36 && tag != 43 && tag != 42 && tag != 45 && tag != 58 {
            Err(RespError::Protocol)
        } else {
            match read_line(b, pos + 1) {
                Err(e) => Err(e),
                Ok((line, next)) => if next <= pos || next > b.len() {
                    Err(RespError::Protocol)
                } else if tag == 43 || tag == 45 {
                    if !valid_utf8(line) {
                        Err(RespError::Protocol)
                    } else if tag == 43 {
                        Ok((Frame::Simple(decode_utf8(line)), next))
                    } else {
                        Ok((Frame::Error(decode_utf8(line)), next))
                    }
                } else if tag == 58 {
                    match parse_integer(line) {
                        Some(n) => Ok((Frame::Integer(n), next)),
                        None => Err(RespError::Parse),
                    }
                } else {
                    match parse_count(line) {
                        None => Err(RespError::Protocol),
                        Some(n) => if tag == 36 {
                            if next + n + 2 > b.len() {
                                Err(RespError::Incomplete)
                            } else {
                                Ok((Frame::Bulk(b.subrange(next, next + n)), next + n + 2))
                            }
                        } else {
                            match parse_frames(b, next, n) {
                                Ok((items, end)) => Ok((Frame::Array(items), end)),
                                Err(e) => Err(e),
                            }
                        },
                    }
                },
            }
        }
    }
}

/// `n` values one after another from `pos`, and where the bytes after them
/// start.
pub open spec fn parse_frames(b: Seq<u8>, pos: int, n: nat) -> Result<(Seq<Frame>, int), RespError>
    decreases b.len() - pos, 1int, n,
{
    if n == 0 {
        Ok((Seq::empty(), pos))
    } else if pos < 0 || pos > b.len() {
        Err(RespError::Incomplete)
    } else {
        match parse_frame(b, pos) {
            Err(e) => Err(e),
            Ok((f, p)) => if p <= pos || p > b.len() {
                Err(RespError::Protocol)
            } else {
                match parse_frames(b, p, (n - 1) as nat) {
                    Ok((fs, end)) => Ok((seq![f] + fs, end)),
                    Err(e) => Err(e),
                }
            },
        }
    }
}

/// Relies on `String::from_utf8`: it fails exactly on bytes that are not
/// UTF-8, and otherwise the string holds those very bytes.
#[verifier::external_body]
fn string_from_utf8(b: Vec<u8>) -> (r: Option<String>)
    ensures
        r.is_some() == valid_utf8(b@),
        r matches Some(s) ==> encode_utf8(s@) == b@,
{
    String::from_utf8(b).ok()
}

fn find_line_feed(b: &[u8], i: usize) -> (r: Option<usize>)
    ensures
        match r {
            Some(j) => line_feed_from(b@, i as int) == Some(j as int),
            None => line_feed_from(b@, i as int).is_none(),
        },
{
    let mut k: usize = i;
    while k < b.len()
        invariant
            i <= k,
            line_feed_from(b@, i as int) == line_feed_from(b@, k as int),
        decreases b@.len() - k,
    {
        if b[k] == 10u8 {
            return Some(k);
        }
        k = k + 1;
    }
    None
}

/// Reads the line at `i`: where its content ends and where the next starts.
fn read_line_at(b: &[u8], i: usize) -> (r: Result<(usize, usize), RespError>)
    ensures
        match read_line(b@, i as int) {
            Ok((line, next)) => r matches Ok((end, nx)) && i <= end && line == b@.subrange(
                i as int,
                end as int,
            ) && nx == next && end + 2 == nx && nx <= b@.len(),
            Err(e) => r == Err::<(usize, usize), RespError>(e),
        },
{
    match find_line_feed(b, i) {
        None => Err(RespError::Incomplete),
        Some(j) => {
            proof {
                lemma_line_feed_from_bounds(b@, i as int);
                assert(line_feed_from(b@, i as int) == Some(j as int));
            }
            if i < j && b[j - 1] == 13u8 {
                Ok((j - 1, j + 1))
            } else {
                Err(RespError::Protocol)
            }
        },
    }
}

proof fn lemma_line_feed_from_bounds(b: Seq<u8>, i: int)
    ensures
        line_feed_from(b, i) matches Some(j) ==> 0 <= i <= j < b.len() && b[j] == 10,
    decreases b.len() - i,
{
    if 0 <= i < b.len() && b[i] != 10 {
        lemma_line_feed_from_bounds(b, i + 1);
    }
}

/// The value of the decimal digits `d`, where they are digits and the value
/// is at most `limit`.
fn digits_upto(d: &[u8], limit: u64) -> (r: Option<u64>)
    ensures
        match r {
            Some(v) => is_digits(d@) && digits_value(d@) <= limit && v == digits_value(d@),
            None => !(is_digits(d@) && digits_value(d@) <= limit),
        },
{
    if d.len() == 0 {
        return None;
    }
    let mut val: u64 = 0;
    let mut i: usize = 0;
    while i < d.len()
        invariant
            0 < d@.len(),
            i <= d@.len(),
            forall|k: int| 0 <= k < i ==> 48 <= #[trigger] d@[k] <= 57,
            val == digits_value(d@.subrange(0, i as int)),
            val <= limit,
        decreases d@.len() - i,
    {
        let c = d[i];
        if c < 48u8 || c > 57u8 {
            assert(!is_digits(d@));
            return None;
        }
        let digit: u64 = (c - 48u8) as u64;
        proof {
            assert(d@.subrange(0, i + 1).drop_last() =~= d@.subrange(0, i as int));
        }
        if digit > limit || val > (limit - digit) / 10 {
            proof {
                if digit <= limit {
                    assert(val * 10 + digit > limit) by (nonlinear_arith)
                        requires
                            val > (limit - digit) / 10,
                            digit <= 9,
                            digit <= limit,
                    ;
                }
                if is_digits(d@) {
                    lemma_digits_prefix(d@, i + 1);
                }
            }
            return None;
        }
        proof {
            assert(val * 10 + digit <= limit) by (nonlinear_arith)
                requires
                    val <= (limit - digit) / 10,
                    digit <= limit,
            ;
        }
        val = val * 10 + digit;
        i = i + 1;
    }
    assert(d@.subrange(0, i as int) =~= d@);
    Some(val)
}

proof fn lemma_digits_prefix(s: Seq<u8>, k: int)
    requires
        0 <= k <= s.len(),
        forall|i: int| 0 <= i < s.len() ==> 48 <= #[trigger] s[i] <= 57,
    ensures
        digits_value(s.subrange(0, k)) <= digits_value(s),
    decreases s.len() - k,
{
    if k < s.len() {
        let t = s.drop_last();
        assert(t.subrange(0, k) =~= s.subrange(0, k));
        lemma_digits_prefix(t, k);
    } else {
        assert(s.subrange(0, k) =~= s);
    }
}

/// A length or count line, by `parse_count`.
fn count_of(line: &[u8]) -> (r: Option<usize>)
    ensures
        match parse_count(line@) {
            Some(n) => r == Some(n as usize),
            None => r.is_none(),
        },
{
    match digits_upto(line, usize::MAX as u64) {
        Some(v) => Some(v as usize),
        None => None,
    }
}

/// An integer line, by `parse_integer`.
fn integer_of(line: &[u8]) -> (r: Option<i64>)
    ensures
        match parse_integer(line@) {
            Some(n) => r == Some(n as i64),
            None => r.is_none(),
        },
{
    if line.len() > 0 && (line[0] == 45u8 || line[0] == 43u8) {
        let d = vstd::slice::slice_subrange(line, 1, line.len());
        assert(d@ =~= line@.drop_first());
        if line[0] == 45u8 {
            match digits_upto(d, 0x8000_0000_0000_0000u64) {
                None => None,
                Some(v) => if v == 0x8000_0000_0000_0000u64 {
                    Some(i64::MIN)
                } else {
                    Some(-(v as i64))
                },
            }
        } else {
            match digits_upto(d, i64::MAX as u64) {
                None => None,
                Some(v) => Some(v as i64),
            }
        }
    } else {
        match digits_upto(line, i64::MAX as u64) {
            None => None,
            Some(v) => Some(v as i64),
        }
    }
}

/// Reads the value that starts at `pos`: the value, and where the bytes
/// after it start. Fails as `parse_frame` does.
pub fn decode(b: &[u8], pos: usize) -> (r: Result<(RespValue, usize), RespError>)
    ensures
        match parse_frame(b@, pos as int) {
            Ok((f, end)) => r matches Ok((v, e)) && v@ == f && e == end,
            Err(err) => r == Err::<(RespValue, usize), RespError>(err),
        },
        r matches Ok((_, e)) ==> pos < e <= b@.len(),
    decreases b@.len() - pos,
{
    if pos >= b.len() {
        return Err(RespError::Incomplete);
    }
    let tag = b[pos];
    if tag != 36u8 && tag != 43u8 && tag != 42u8 && tag != 45u8 && tag != 58u8 {
        return Err(RespError::Protocol);
    }
    let (end, next) = match read_line_at(b, pos + 1) {
        Err(e) => {
            return Err(e);
        },
        Ok(pair) => pair,
    };
    let ghost line = b@.subrange(pos + 1, end as int);
    let line_bytes = vstd::slice::slice_subrange(b, pos + 1, end);
    if tag == 43u8 || tag == 45u8 {
        let text = match string_from_utf8(vstd::slice::slice_to_vec(line_bytes)) {
            None => {
                return Err(RespError::Protocol);
            },
            Some(t) => t,
        };
        proof {
            assert(decode_utf8(line) == text@);
        }
        if tag == 43u8 {
            Ok((RespValue::Simple(text), next))
        } else {
            Ok((RespValue::Error(text), next))
        }
    } else if tag == 58u8 {
        match integer_of(line_bytes) {
            Some(n) => Ok((RespValue::Integer(n), next)),
            None => Err(RespError::Parse),
        }
    } else {
        let n = match count_of(line_bytes) {
            None => {
                return Err(RespError::Protocol);
            },
            Some(n) => n,
        };
        if tag == 36u8 {
            if n > b.len() - next || b.len() - next - n < 2 {
                return Err(RespError::Incomplete);
            }
            let payload = vstd::slice::slice_to_vec(vstd::slice::slice_subrange(b, next, next + n));
            Ok((RespValue::Bulk(payload), next + n + 2))
        } else {
            let mut items: Vec<RespValue> = Vec::new();
            let mut p: usize = next;
            let mut i: usize = 0;
            proof {
                assert(frames_from(items@, 0) =~= Seq::<Frame>::empty());
                match parse_frames(b@, next as int, n as nat) {
                    Ok((rest, e)) => {
                        assert(frames_from(items@, 0) + rest =~= rest);
                    },
                    Err(e) => {},
                }
            }
            while i < n
                invariant
                    parse_frame(b@, pos as int) == match parse_frames(b@, next as int, n as nat) {
                        Ok((all, e)) => Ok((Frame::Array(all), e)),
                        Err(e) => Err(e),
                    },
                    pos < next <= p <= b@.len(),
                    i <= n,
                    parse_count(line) == Some(n as nat),
                    items@.len() == i,
                    parse_frames(b@, next as int, n as nat) == match parse_frames(b@, p as int, (n - i) as nat) {
                        Ok((rest, e)) => Ok((frames_from(items@, 0) + rest, e)),
                        Err(e) => Err(e),
                    },
                decreases n - i,
            {
                let ghost prior = items@;
                match decode(b, p) {
                    Err(e) => {
                        proof {
                            assert(parse_frames(b@, p as int, (n - i) as nat) == Err::<(Seq<Frame>, int), RespError>(e));
                        }
                        return Err(e);
                    },
                    Ok((v, q)) => {
                        items.push(v);
                        proof {
                            lemma_frames_from(prior, 0);
                            lemma_frames_from(items@, 0);
                            assert(frames_from(items@, 0) =~= frames_from(prior, 0).push(v@));
                            match parse_frames(b@, q as int, (n - i - 1) as nat) {
                                Ok((rest, e)) => {
                                    assert(frames_from(prior, 0) + (seq![v@] + rest) =~= frames_from(items@, 0) + rest);
                                },
                                Err(e) => {},
                            }
                        }
                        p = q;
                    },
                }
                i = i + 1;
            }
            proof {
                lemma_frames_from(items@, 0);
                assert(frames_from(items@, 0) + Seq::<Frame>::empty() =~= frames_from(items@, 0));
            }
            Ok((RespValue::Array(items), p))
        }
    }
}

/// Reads one value from the start of `b`, as `decode` at position 0.
pub fn parse(b: &[u8]) -> (r: Result<(RespValue, usize), RespError>)
    ensures
        match parse_frame(b@, 0) {
            Ok((f, end)) => r matches Ok((v, e)) && v@ == f && e == end,
            Err(err) => r == Err::<(RespValue, usize), RespError>(err),
        },
{
    decode(b, 0)
}

/// A value that the wire format carries: text without a line feed, and
/// integers, lengths and counts within their machine ranges.
pub open spec fn frame_wf(f: Frame) -> bool
    decreases f, 0int,
{
    match f {
        Frame::Simple(s) => !s.contains('\n'),
        Frame::Error(s) => !s.contains('\n'),
        Frame::Integer(n) => i64::MIN <= n <= i64::MAX,
        Frame::Bulk(b) => b.len() <= usize::MAX,
        Frame::Array(items) => items.len() <= usize::MAX && frames_wf(items, 0),
    }
}

/// Every value of `items[i..]` is carried by the wire format.
pub open spec fn frames_wf(items: Seq<Frame>, i: int) -> bool
    decreases items, items.len() - i,
{
    if 0 <= i < items.len() {
        frame_wf(items[i]) && frames_wf(items, i + 1)
    } else {
        true
    }
}

proof fn lemma_window(b: Seq<u8>, pos: int, e: Seq<u8>, k: int, m: int)
    requires
        0 <= pos,
        0 <= k,
        0 <= m,
        k + m <= e.len(),
        pos + e.len() <= b.len(),
        b.subrange(pos, pos + e.len()) == e,
    ensures
        b.subrange(pos + k, pos + k + m) == e.subrange(k, k + m),
{
    assert forall|t: int| 0 <= t < m implies #[trigger] b.subrange(pos + k, pos + k + m)[t] == e.subrange(k, k + m)[t] by {
        assert(b[pos + k + t] == b.subrange(pos, pos + e.len())[k + t]);
    }
    assert(b.subrange(pos + k, pos + k + m) =~= e.subrange(k, k + m));
}

proof fn lemma_high_bit(x: u8)
    ensures
        (0x80u8 | x) != 10u8,
        (0xC0u8 | x) != 10u8,
        (0xE0u8 | x) != 10u8,
        (0xF0u8 | x) != 10u8,
{
    assert((0x80u8 | x) != 10u8 && (0xC0u8 | x) != 10u8 && (0xE0u8 | x) != 10u8 && (0xF0u8 | x) != 10u8) by (bit_vector);
}

proof fn lemma_scalar_no_line_feed(c: char)
    requires
        c != '\n',
    ensures
        !encode_scalar(c as u32).contains(10u8),
{
    let v = c as u32;
    let e = encode_scalar(v);
    lemma_high_bit((v & 0x3F) as u8);
    lemma_high_bit(((v >> 6) & 0x3F) as u8);
    lemma_high_bit(((v >> 12) & 0x3F) as u8);
    lemma_high_bit(((v >> 6) & 0x1F) as u8);
    lemma_high_bit(((v >> 12) & 0x0F) as u8);
    lemma_high_bit(((v >> 18) & 0x7) as u8);
    if has_width_1_encoding(v) {
        assert((v & 0x7F) as u8 == v as u8) by (bit_vector)
            requires
                v <= 0x7F,
        ;
    }
    if e.contains(10u8) {
        let k = choose|k: int| 0 <= k < e.len() && e[k] == 10u8;
        assert(false);
    }
}

proof fn lemma_text_no_line_feed(s: Seq<char>)
    requires
        !s.contains('\n'),
    ensures
        !encode_utf8(s).contains(10u8),
    decreases s.len(),
{
    if s.len() > 0 {
        let first = encode_scalar(s[0] as u32);
        let rest = s.drop_first();
        assert(!rest.contains('\n')) by {
            if rest.contains('\n') {
                let k = choose|k: int| 0 <= k < rest.len() && rest[k] == '\n';
                assert(s[k + 1] == '\n');
            }
        }
        lemma_scalar_no_line_feed(s[0]);
        lemma_text_no_line_feed(rest);
        let e = encode_utf8(s);
        assert(e == first + encode_utf8(rest));
        if e.contains(10u8) {
            let k = choose|k: int| 0 <= k < e.len() && e[k] == 10u8;
            if k < first.len() {
                assert(first[k] == 10u8);
            } else {
                assert(encode_utf8(rest)[k - first.len()] == 10u8);
            }
        }
    }
}

proof fn lemma_nat_text(n: nat)
    ensures
        is_digits(nat_text(n)),
        digits_value(nat_text(n)) == n,
    decreases n,
{
    if n >= 10 {
        lemma_nat_text(n / 10);
        let t = nat_text(n);
        assert(t.drop_last() =~= nat_text(n / 10));
        assert(t.last() == (48 + n % 10) as u8);
        assert((n / 10) * 10 + n % 10 == n) by (nonlinear_arith);
        assert(digits_value(t) == digits_value(t.drop_last()) * 10 + (t.last() - 48) as nat);
    } else {
        let t = nat_text(n);
        assert(t.drop_last() =~= Seq::<u8>::empty());
        assert(digits_value(Seq::<u8>::empty()) == 0);
        assert(digits_value(t) == digits_value(t.drop_last()) * 10 + (t.last() - 48) as nat);
    }
}

proof fn lemma_count_text(n: nat)
    requires
        n <= usize::MAX,
    ensures
        parse_count(nat_text(n)) == Some(n),
{
    lemma_nat_text(n);
}

proof fn lemma_integer_text(n: int)
    requires
        i64::MIN <= n <= i64::MAX,
    ensures
        parse_integer(int_text(n)) == Some(n),
{
    if n < 0 {
        lemma_nat_text((-n) as nat);
        assert(int_text(n).drop_first() =~= nat_text((-n) as nat));
    } else {
        lemma_nat_text(n as nat);
        let t = nat_text(n as nat);
        assert(48 <= t[0] <= 57);
    }
}

proof fn lemma_line_feed_at(b: Seq<u8>, i: int, j: int)
    requires
        0 <= i <= j < b.len(),
        b[j] == 10,
        forall|k: int| i <= k < j ==> b[k] != 10,
    ensures
        line_feed_from(b, i) == Some(j),
    decreases j - i,
{
    if i < j {
        lemma_line_feed_at(b, i + 1, j);
    }
}

proof fn lemma_read_line(b: Seq<u8>, i: int, c: Seq<u8>)
    requires
        0 <= i,
        i + c.len() + 2 <= b.len(),
        b.subrange(i, i + c.len() + 2) == c + crlf(),
        !c.contains(10u8),
    ensures
        read_line(b, i) == Ok::<(Seq<u8>, int), RespError>((c, i + c.len() + 2)),
{
    let j = i + c.len() + 1;
    assert forall|k: int| i <= k < j implies b[k] != 10 by {
        assert(b[k] == b.subrange(i, i + c.len() + 2)[k - i]);
        if k - i < c.len() {
            assert(c[k - i] == b[k]);
        }
    }
    assert(b[j] == b.subrange(i, i + c.len() + 2)[(c.len() + 1) as int]);
    assert(b[j - 1] == b.subrange(i, i + c.len() + 2)[c.len() as int]);
    lemma_line_feed_at(b, i, j);
    assert(b.subrange(i, j - 1) =~= c);
}

/// Decoding the bytes of a carried value, wherever they stand and whatever
/// follows them, gives back that value and ends just after its bytes.
#[verifier::rlimit(60)]
pub proof fn lemma_round_trip(f: Frame, b: Seq<u8>, pos: int)
    requires
        frame_wf(f),
        0 <= pos,
        pos + encode_frame(f).len() <= b.len(),
        b.subrange(pos, pos + encode_frame(f).len()) == encode_frame(f),
    ensures
        parse_frame(b, pos) == Ok::<(Frame, int), RespError>((f, pos + encode_frame(f).len())),
    decreases f, 0int,
{
    let e = encode_frame(f);
    let w = b.subrange(pos, pos + e.len());
    assert(b[pos] == w[0]);
    match f {
        Frame::Simple(s) => {
            let u = encode_utf8(s);
            lemma_text_no_line_feed(s);
            assert(e == seq![b[pos]] + u + crlf());
            assert forall|k: int| 0 <= k < u.len() + 2 implies #[trigger] b.subrange(pos + 1, pos + 1 + u.len() + 2)[k] == (u + crlf())[k] by {
                assert(b[pos + 1 + k] == w[1 + k]);
            }
            assert(b.subrange(pos + 1, pos + 1 + u.len() + 2) =~= u + crlf());
            lemma_read_line(b, pos + 1, u);
        },
        Frame::Error(s) => {
            let u = encode_utf8(s);
            lemma_text_no_line_feed(s);
            assert(e == seq![b[pos]] + u + crlf());
            assert forall|k: int| 0 <= k < u.len() + 2 implies #[trigger] b.subrange(pos + 1, pos + 1 + u.len() + 2)[k] == (u + crlf())[k] by {
                assert(b[pos + 1 + k] == w[1 + k]);
            }
            assert(b.subrange(pos + 1, pos + 1 + u.len() + 2) =~= u + crlf());
            lemma_read_line(b, pos + 1, u);
        },
        Frame::Integer(n) => {
            let t = int_text(n);
            lemma_nat_text(if n < 0 { (-n) as nat } else { n as nat });
            assert(!t.contains(10u8)) by {
                if t.contains(10u8) {
                    let k = choose|k: int| 0 <= k < t.len() && t[k] == 10u8;
                    if n < 0 {
                        assert(t[k] == 45u8 || t[k] == nat_text((-n) as nat)[k - 1]);
                    }
                }
            }
            assert(e == seq![58u8] + t + crlf());
            lemma_window(b, pos, e, 1, t.len() + 2 as int);
            assert(e.subrange(1, t.len() + 3 as int) =~= t + crlf());
            lemma_read_line(b, pos + 1, t);
            lemma_integer_text(n);
        },
        Frame::Bulk(d) => {
            let t = nat_text(d.len());
            lemma_nat_text(d.len());
            assert(!t.contains(10u8)) by {
                if t.contains(10u8) {
                    let k = choose|k: int| 0 <= k < t.len() && t[k] == 10u8;
                    assert(48 <= t[k] <= 57);
                }
            }
            assert(e == seq![36u8] + t + crlf() + d + crlf());
            lemma_window(b, pos, e, 1, t.len() + 2 as int);
            assert(e.subrange(1, t.len() + 3 as int) =~= t + crlf());
            lemma_read_line(b, pos + 1, t);
            lemma_count_text(d.len());
            let next = pos + 1 + t.len() + 2;
            lemma_window(b, pos, e, t.len() + 3 as int, d.len() as int);
            assert(e.subrange(t.len() + 3 as int, t.len() + 3 + d.len() as int) =~= d);
        },
        Frame::Array(items) => {
            let t = nat_text(items.len());
            lemma_nat_text(items.len());
            assert(!t.contains(10u8)) by {
                if t.contains(10u8) {
                    let k = choose|k: int| 0 <= k < t.len() && t[k] == 10u8;
                    assert(48 <= t[k] <= 57);
                }
            }
            let rest = encode_frames(items, 0);
            assert(e == seq![42u8] + t + crlf() + rest);
            lemma_window(b, pos, e, 1, t.len() + 2 as int);
            assert(e.subrange(1, t.len() + 3 as int) =~= t + crlf());
            lemma_read_line(b, pos + 1, t);
            lemma_count_text(items.len());
            let next = pos + 1 + t.len() + 2;
            lemma_window(b, pos, e, t.len() + 3 as int, rest.len() as int);
            assert(e.subrange(t.len() + 3 as int, t.len() + 3 + rest.len() as int) =~= rest);
            lemma_round_trip_items(items, 0, b, next);
            assert(items.subrange(0, items.len() as int) =~= items);
        },
    }
}

proof fn lemma_round_trip_items(items: Seq<Frame>, i: int, b: Seq<u8>, pos: int)
    requires
        0 <= i <= items.len(),
        frames_wf(items, i),
        0 <= pos,
        pos + encode_frames(items, i).len() <= b.len(),
        b.subrange(pos, pos + encode_frames(items, i).len()) == encode_frames(items, i),
    ensures
        parse_frames(b, pos, (items.len() - i) as nat) == Ok::<(Seq<Frame>, int), RespError>(
            (items.subrange(i, items.len() as int), pos + encode_frames(items, i).len()),
        ),
    decreases items, items.len() - i,
{
    if i < items.len() {
        let first = encode_frame(items[i]);
        let later = encode_frames(items, i + 1);
        assert(b.subrange(pos, pos + first.len()) =~= first);
        lemma_round_trip(items[i], b, pos);
        assert(first.len() > 0) by {
            reveal_with_fuel(encode_frame, 1);
        }
        let p = pos + first.len();
        let whole = encode_frames(items, i);
        assert(whole == first + later);
        assert forall|k: int| 0 <= k < later.len() implies #[trigger] b.subrange(p, p + later.len())[k] == later[k] by {
            assert(b[p + k] == b.subrange(pos, pos + whole.len())[first.len() + k]);
        }
        assert(b.subrange(p, p + later.len()) =~= later);
        lemma_round_trip_items(items, i + 1, b, p);
        assert(seq![items[i]] + items.subrange(i + 1, items.len() as int) =~= items.subrange(i, items.len() as int));
    } else {
        assert(items.subrange(i, items.len() as int) =~= Seq::<Frame>::empty());
    }
}

} // verus!

use vstd::prelude::*;

verus! {

/// The byte that ends every record on the wire.
pub const NEWLINE: u8 = 10;

/// The `+` sign that may open a decimal number.
pub const PLUS: u8 = 43;

/// A record as it is written on the wire: its bytes, then a newline.
pub open spec fn frame(payload: Seq<u8>) -> Seq<u8> {
    payload.push(NEWLINE)
}

/// `line` is the first line of `buf`: the bytes before its first newline.
pub open spec fn is_first_line(buf: Seq<u8>, line: Seq<u8>) -> bool {
    &&& line.len() < buf.len()
    &&& buf[line.len() as int] == NEWLINE
    &&& !line.contains(NEWLINE)
    &&& line == buf.take(line.len() as int)
}

/// Frames one record: `None` when the payload itself holds a newline, which
/// would split it in two on the wire.
pub fn frame_record(payload: &[u8]) -> (r: Option<Vec<u8>>)
    ensures
        r is None <==> payload@.contains(NEWLINE),
        r matches Some(bytes) ==> bytes@ == frame(payload@),
{
    let mut bytes: Vec<u8> = Vec::new();
    let mut i: usize = 0;
    while i < payload.len()
        invariant
            i <= payload@.len(),
            bytes@ == payload@.take(i as int),
            !payload@.take(i as int).contains(NEWLINE),
        decreases payload.len() - i,
    {
        let b = payload[i];
        if b == NEWLINE {
            assert(payload@[i as int] == NEWLINE);
            return None;
        }
        bytes.push(b);
        i = i + 1;
        assert(bytes@ =~= payload@.take(i as int));
    }
    assert(payload@.take(i as int) =~= payload@);
    bytes.push(NEWLINE);
    Some(bytes)
}

/// Reassembles records from the bytes of a stream, which may arrive cut
/// anywhere.
pub struct LineReader {
    pending: Vec<u8>,
}

impl View for LineReader {
    type V = Seq<u8>;

    /// The bytes received and not yet handed out as a line.
    closed spec fn view(&self) -> Seq<u8> {
        self.pending@
    }
}

impl LineReader {
    /// A reader with nothing received yet.
    pub fn new() -> (r: LineReader)
        ensures
            r@ == Seq::<u8>::empty(),
    {
        LineReader { pending: Vec::new() }
    }

    /// Takes in bytes read from the stream.
    pub fn feed(&mut self, chunk: &[u8])
        ensures
            final(self)@ == old(self)@ + chunk@,
    {
        let mut i: usize = 0;
        while i < chunk.len()
            invariant
                i <= chunk@.len(),
                self@ == old(self)@ + chunk@.take(i as int),
            decreases chunk.len() - i,
        {
            self.pending.push(chunk[i]);
            i = i + 1;
            assert(self@ =~= old(self)@ + chunk@.take(i as int));
        }
        assert(chunk@.take(i as int) =~= chunk@);
    }

    /// Hands out the next complete line, without its newline, and drops it
    /// from what is pending; `None` while no newline has arrived.
    pub fn next_line(&mut self) -> (r: Option<Vec<u8>>)
        ensures
            r is None ==> !old(self)@.contains(NEWLINE) && final(self)@ == old(self)@,
            r matches Some(line) ==> {
                &&& is_first_line(old(self)@, line@)
                &&& final(self)@ == old(self)@.skip(line@.len() as int + 1)
            },
    {
        let mut line: Vec<u8> = Vec::new();
        let mut i: usize = 0;
        while i < self.pending.len()
            invariant
                i <= self@.len(),
                self@ == old(self)@,
                line@ == self@.take(i as int),
                !line@.contains(NEWLINE),
            decreases self@.len() - i,
        {
            let b = self.pending[i];
            if b == NEWLINE {
                let mut rest: Vec<u8> = Vec::new();
                let mut j: usize = i + 1;
                while j < self.pending.len()
                    invariant
                        i < j <= self@.len(),
                        rest@ == self@.subrange(i + 1, j as int),
                    decreases self@.len() - j,
                {
                    rest.push(self.pending[j]);
                    j = j + 1;
                    assert(rest@ =~= self@.subrange(i + 1, j as int));
                }
                assert(rest@ =~= self@.skip(i + 1));
                self.pending = rest;
                return Some(line);
            }
            line.push(b);
            i = i + 1;
            assert(line@ =~= self@.take(i as int));
        }
        assert(line@ =~= self@);
        None
    }

    /// Whether bytes of an unfinished line are pending. At the end of the
    /// stream this tells a clean close (nothing pending) from a truncated
    /// record.
    pub fn has_partial(&self) -> (r: bool)
        ensures
            r == (self@.len() > 0),
    {
        self.pending.len() > 0
    }
}

/// Framing round trip: reading a framed record back gives exactly the
/// record, and leaves whatever followed it.
pub proof fn lemma_framing_round_trip(payload: Seq<u8>, tail: Seq<u8>, line: Seq<u8>)
    requires
        !payload.contains(NEWLINE),
    ensures
        is_first_line(frame(payload) + tail, payload),
        (frame(payload) + tail).skip(payload.len() as int + 1) == tail,
        is_first_line(frame(payload) + tail, line) ==> line == payload,
{
    let buf = frame(payload) + tail;
    assert(buf.take(payload.len() as int) =~= payload);
    assert(buf.skip(payload.len() as int + 1) =~= tail);
    if is_first_line(buf, line) {
        if line.len() < payload.len() {
            assert(payload[line.len() as int] == NEWLINE);
        } else if line.len() > payload.len() {
            assert(line[payload.len() as int] == NEWLINE);
        }
    }
}

/// An ASCII decimal digit.
pub open spec fn is_digit(b: u8) -> bool {
    48 <= b <= 57
}

pub open spec fn all_digits(s: Seq<u8>) -> bool {
    forall|i: int| 0 <= i < s.len() ==> is_digit(#[trigger] s[i])
}

/// The number that the digits `s` write in base ten.
pub open spec fn digits_value(s: Seq<u8>) -> nat
    decreases s.len(),
{
    if s.len() == 0 {
        0
    } else {
        digits_value(s.drop_last()) * 10 + (s.last() - 48) as nat
    }
}

/// `n` written in base ten, without leading zeros.
pub open spec fn decimal(n: nat) -> Seq<u8>
    decreases n,
{
    if n < 10 {
        seq![(48 + n) as u8]
    } else {
        decimal(n / 10).push((48 + n % 10) as u8)
    }
}

/// `line` without the `+` that may open it.
pub open spec fn unsigned_part(line: Seq<u8>) -> Seq<u8> {
    if line.len() > 0 && line[0] == PLUS {
        line.drop_first()
    } else {
        line
    }
}

/// The port that a line announces: an optional `+`, then one or more
/// decimal digits whose value fits in 16 bits.
pub open spec fn port_of(line: Seq<u8>) -> Option<u16> {
    let d = unsigned_part(line);
    if d.len() > 0 && all_digits(d) && digits_value(d) <= 65535 {
        Some(digits_value(d) as u16)
    } else {
        None
    }
}

fn push_decimal(out: &mut Vec<u8>, n: u16)
    ensures
        final(out)@ == old(out)@ + decimal(n as nat),
    decreases n,
{
    if n >= 10 {
        push_decimal(out, n / 10);
    }
    out.push(48 + (n % 10) as u8);
    assert(old(out)@ + decimal(n as nat) =~= out@);
}

/// The line with which an agent announces its port: the port in decimal,
/// then a newline.
pub fn port_line(port: u16) -> (r: Vec<u8>)
    ensures
        r@ == frame(decimal(port as nat)),
{
    let mut r: Vec<u8> = Vec::new();
    push_decimal(&mut r, port);
    assert(r@ =~= decimal(port as nat));
    r.push(NEWLINE);
    r
}

proof fn lemma_digits_prefix(s: Seq<u8>, k: int)
    requires
        0 <= k <= s.len(),
        all_digits(s),
    ensures
        digits_value(s.take(k)) <= digits_value(s),
    decreases s.len() - k,
{
    if k < s.len() {
        lemma_digits_prefix(s, k + 1);
        assert(s.take(k + 1).drop_last() =~= s.take(k));
    } else {
        assert(s.take(k) =~= s);
    }
}

/// Reads the port out of an announcement line (without its newline); see
/// `port_of`.
pub fn parse_port(line: &[u8]) -> (r: Option<u16>)
    ensures
        r == port_of(line@),
{
    let start: usize = if line.len() > 0 && line[0] == PLUS {
        1
    } else {
        0
    };
    let ghost d = unsigned_part(line@);
    assert(d =~= line@.skip(start as int));
    if start == line.len() {
        return None;
    }
    let mut value: u32 = 0;
    let mut i: usize = start;
    while i < line.len()
        invariant
            start <= i <= line@.len(),
            d == line@.skip(start as int),
            d == unsigned_part(line@),
            d.take(i - start) == line@.subrange(start as int, i as int),
            all_digits(d.take(i - start)),
            value == digits_value(d.take(i - start)),
            value <= 65535,
        decreases line@.len() - i,
    {
        let b = line[i];
        assert(d[i - start] == b);
        if b < 48 || b > 57 {
            assert(!is_digit(d[i - start]));
            return None;
        }
        assert(d.take(i - start + 1).drop_last() =~= d.take(i - start));
        assert(d.take(i - start + 1).last() == b);
        value = value * 10 + (b - 48) as u32;
        i = i + 1;
        assert(d.take(i - start) =~= line@.subrange(start as int, i as int));
        if value > 65535 {
            proof {
                if all_digits(d) {
                    lemma_digits_prefix(d, i - start);
                }
            }
            return None;
        }
    }
    assert(d.take(i - start) =~= d);
    Some(value as u16)
}

proof fn lemma_decimal_digits(n: nat)
    ensures
        decimal(n).len() > 0,
        all_digits(decimal(n)),
        digits_value(decimal(n)) == n,
    decreases n,
{
    let s = decimal(n);
    if n >= 10 {
        lemma_decimal_digits(n / 10);
        assert(s.drop_last() =~= decimal(n / 10));
        assert(n == (n / 10) * 10 + n % 10) by (nonlinear_arith);
        assert(s.last() == (48 + n % 10) as u8);
        assert(s.last() as int == 48 + n % 10);
        assert forall|i: int| 0 <= i < s.len() implies is_digit(#[trigger] s[i]) by {
            if i < s.len() - 1 {
                assert(s[i] == decimal(n / 10)[i]);
            }
        }
    } else {
        assert(s.drop_last() =~= Seq::<u8>::empty());
        assert(s.last() as int == 48 + n);
        assert(digits_value(s) == digits_value(s.drop_last()) * 10 + (s.last() - 48) as nat);
    }
}

/// Announcing a port and reading the announcement back gives the same port.
pub proof fn lemma_port_round_trip(port: u16)
    ensures
        port_of(decimal(port as nat)) == Some(port),
{
    lemma_decimal_digits(port as nat);
}

} // verus!

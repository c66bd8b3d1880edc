//! Framing of editor-protocol messages on a byte stream: each message is a
//! `Content-Length: N` header line, an empty line, then exactly `N` bytes
//! of UTF-8 payload.
use vstd::prelude::*;
use vstd::string::StringSliceAdditionalSpecFns;
use vstd::utf8::{encode_utf8, valid_utf8};

verus! {

/// An event on the wire.
#[derive(Clone, Debug, Eq, PartialEq, Ord, PartialOrd, Hash)]
pub enum LspEvent {
    Message(String),
}

/// The codec of the wire format. It keeps no state.
#[derive(Copy, Clone, Debug, Eq, PartialEq, Ord, PartialOrd, Hash, Default)]
pub struct LspCodec {}

/// The header's fixed start, `Content-Length: `.
pub open spec fn header_start() -> Seq<u8> {
    seq![67u8, 111, 110, 116, 101, 110, 116, 45, 76, 101, 110, 103, 116, 104, 58, 32]
}

/// The end of the header line and the empty line after it, `\r\n\r\n`.
pub open spec fn header_end() -> Seq<u8> {
    seq![13u8, 10, 13, 10]
}

pub open spec fn is_digit(b: u8) -> bool {
    48 <= b <= 57
}

/// The decimal digits of `n`, most significant first, without leading zeros.
pub open spec fn decimal(n: nat) -> Seq<u8>
    decreases n,
{
    if n < 10 {
        seq![(48 + n) as u8]
    } else {
        decimal(n / 10).push((48 + n % 10) as u8)
    }
}

/// The value of a sequence of decimal digits, most significant first.
pub open spec fn digits_value(s: Seq<u8>) -> nat
    decreases s.len(),
{
    if s.len() == 0 {
        0
    } else {
        digits_value(s.drop_last()) * 10 + (s.last() - 48) as nat
    }
}

/// The number of decimal digits at the front of `s`.
pub open spec fn digit_run(s: Seq<u8>) -> nat
    decreases s.len(),
{
    if s.len() > 0 && is_digit(s[0]) {
        1 + digit_run(s.drop_first())
    } else {
        0
    }
}

/// A frame around a payload.
pub open spec fn frame(payload: Seq<u8>) -> Seq<u8> {
    header_start() + decimal(payload.len()) + header_end() + payload
}

/// The payload of the frame at the front of `b`, if a whole one is there:
/// the header start, one or more digits whose value fits a `usize`, the
/// header end, then at least that many bytes.
pub open spec fn framed_payload(b: Seq<u8>) -> Option<Seq<u8>> {
    let h = header_start().len() as int;
    if b.len() >= h && b.take(h) == header_start() {
        let r1 = b.skip(h);
        let n = digit_run(r1) as int;
        let count = digits_value(r1.take(n));
        let r2 = r1.skip(n);
        if n > 0 && count <= usize::MAX && r2.len() >= 4 && r2.take(4) == header_end()
            && r2.skip(4).len() >= count {
            Some(r2.skip(4).take(count as int))
        } else {
            None
        }
    } else {
        None
    }
}

/// What a buffer decodes to: the payload of its first frame, when one is
/// whole and valid UTF-8.
pub open spec fn decoded(b: Seq<u8>) -> Option<Seq<u8>> {
    match framed_payload(b) {
        Some(p) => if valid_utf8(p) {
            Some(p)
        } else {
            None
        },
        None => None,
    }
}

/// Relies on `std::str::from_utf8`: it succeeds exactly on valid UTF-8,
/// with the text that the bytes encode.
#[verifier::external_body]
fn utf8_text(b: &[u8]) -> (r: Option<String>)
    ensures
        r is Some <==> valid_utf8(b@),
        r is Some ==> encode_utf8(r.unwrap()@) == b@,
{
    std::str::from_utf8(b).ok().map(|s| s.to_owned())
}

/// Appends the decimal digits of `n`.
fn push_decimal(out: &mut Vec<u8>, n: usize)
    ensures
        final(out)@ == old(out)@ + decimal(n as nat),
    decreases n,
{
    if n >= 10 {
        push_decimal(out, n / 10);
    }
    let ghost mid = out@;
    out.push(48u8 + (n % 10) as u8);
    proof {
        if n >= 10 {
            assert(out@ =~= old(out)@ + decimal(n as nat));
        } else {
            assert(out@ =~= old(out)@ + decimal(n as nat));
        }
    }
}

/// Appends bytes.
fn push_all(out: &mut Vec<u8>, b: &[u8])
    ensures
        final(out)@ == old(out)@ + b@,
{
    let mut i: usize = 0;
    while i < b.len()
        invariant
            0 <= i <= b@.len(),
            out@ == old(out)@ + b@.take(i as int),
        decreases b@.len() - i,
    {
        out.push(b[i]);
        i = i + 1;
        proof {
            assert(b@.take(i as int) =~= b@.take(i as int - 1).push(b@[i as int - 1]));
            assert(out@ =~= old(out)@ + b@.take(i as int));
        }
    }
    proof {
        assert(b@.take(i as int) =~= b@);
    }
}

/// The bytes of `b` from `start`, `count` of them.
fn copy_range(b: &[u8], start: usize, count: usize) -> (r: Vec<u8>)
    requires
        start + count <= b@.len(),
    ensures
        r@ == b@.subrange(start as int, start + count),
{
    let mut out: Vec<u8> = Vec::new();
    let mut i: usize = 0;
    let len = b.len();
    while i < count
        invariant
            0 <= i <= count,
            start + count <= b@.len(),
            len == b@.len(),
            out@ == b@.subrange(start as int, start + i),
        decreases count - i,
    {
        out.push(b[start + i]);
        i = i + 1;
        proof {
            assert(out@ =~= b@.subrange(start as int, start + i));
        }
    }
    out
}

/// The value of the leading digits is at least that of any shorter run.
proof fn lemma_digits_value_grows(s: Seq<u8>, i: int, j: int)
    requires
        0 <= i <= j <= s.len(),
    ensures
        digits_value(s.take(i)) <= digits_value(s.take(j)),
    decreases j - i,
{
    if i < j {
        lemma_digits_value_grows(s, i, j - 1);
        assert(s.take(j).drop_last() =~= s.take(j - 1));
    }
}

/// Skipping part of the digit run leaves the rest of it.
proof fn lemma_digit_run_skip(s: Seq<u8>, k: int)
    requires
        0 <= k <= digit_run(s),
    ensures
        k <= s.len(),
        digit_run(s) == k + digit_run(s.skip(k)),
        forall|m: int| 0 <= m < k ==> is_digit(#[trigger] s[m]),
    decreases k,
{
    if k == 0 {
        assert(s.skip(0) =~= s);
    } else {
        lemma_digit_run_skip(s.drop_first(), k - 1);
        assert(s.drop_first().skip(k - 1) =~= s.skip(k));
        assert forall|m: int| 0 <= m < k implies is_digit(#[trigger] s[m]) by {
            if m > 0 {
                assert(s[m] == s.drop_first()[m - 1]);
            }
        }
    }
}

impl LspCodec {
    pub fn new() -> (c: LspCodec) {
        LspCodec {  }
    }

    /// The frame of a message: its header, then its bytes.
    pub fn encode_message(&self, m: &str) -> (r: Vec<u8>)
        ensures
            r@ == frame(m.spec_bytes()),
    {
        let mut out: Vec<u8> = Vec::new();
        let start: [u8; 16] = [67, 111, 110, 116, 101, 110, 116, 45, 76, 101, 110, 103, 116, 104, 58, 32];
        let end: [u8; 4] = [13, 10, 13, 10];
        push_all(&mut out, start.as_slice());
        let bytes = m.as_bytes();
        push_decimal(&mut out, bytes.len());
        push_all(&mut out, end.as_slice());
        push_all(&mut out, bytes);
        proof {
            assert(start@ =~= header_start());
            assert(end@ =~= header_end());
            assert(out@ =~= frame(m.spec_bytes()));
        }
        out
    }

    /// The frame of an event.
    pub fn encode(&self, event: &LspEvent) -> (r: Vec<u8>)
        ensures
            match event {
                LspEvent::Message(m) => r@ == frame(encode_utf8(m@)),
            },
    {
        match event {
            LspEvent::Message(m) => self.encode_message(m.as_str()),
        }
    }

    /// The payload of the frame at the front of `b`, when a whole frame is
    /// there and its payload is UTF-8; `None` asks for more input.
    pub fn decode_message(&self, b: &[u8]) -> (r: Option<String>)
        ensures
            r is Some <==> decoded(b@) is Some,
            r is Some ==> encode_utf8(r.unwrap()@) == decoded(b@).unwrap(),
    {
        let h: usize = 16;
        let start: [u8; 16] = [67, 111, 110, 116, 101, 110, 116, 45, 76, 101, 110, 103, 116, 104, 58, 32];
        proof {
            assert(start@ =~= header_start());
        }
        if b.len() < h {
            return None;
        }
        let mut i: usize = 0;
        while i < h
            invariant
                0 <= i <= h,
                h == 16,
                b@.len() >= h,
                start@ == header_start(),
                b@.take(i as int) == header_start().take(i as int),
            decreases h - i,
        {
            if b[i] != start[i] {
                proof {
                    assert(b@.take(h as int)[i as int] != header_start()[i as int]);
                }
                return None;
            }
            i = i + 1;
            proof {
                assert(b@.take(i as int) =~= header_start().take(i as int));
            }
        }
        proof {
            assert(header_start().take(16) =~= header_start());
        }
        let ghost r1 = b@.skip(16);
        // the digits
        let mut j: usize = h;
        let mut count: usize = 0;
        proof {
            assert(r1.take(0) =~= Seq::<u8>::empty());
        }
        while j < b.len() && 48 <= b[j] && b[j] <= 57
            invariant
                h == 16 <= j <= b@.len(),
                r1 == b@.skip(16),
                (j - h) <= digit_run(r1),
                count == digits_value(r1.take(j - h)),
                b@.take(16) == header_start(),
            decreases b@.len() - j,
        {
            let d = (b[j] - 48) as usize;
            proof {
                let k = (j - h) as int;
                lemma_digit_run_skip(r1, k);
                assert(r1.skip(k)[0] == b@[j as int]);
                assert(r1.take(k + 1).drop_last() =~= r1.take(k));
                assert(r1.take(k + 1).last() == b@[j as int]);
            }
            match count.checked_mul(10) {
                Some(c10) => match c10.checked_add(d) {
                    Some(c) => {
                        count = c;
                    },
                    None => {
                        proof {
                            lemma_digit_run_skip(r1, (j - h) as int + 1);
                            lemma_digit_run_skip(r1, digit_run(r1) as int);
                            lemma_digits_value_grows(r1, (j - h) as int + 1, digit_run(r1) as int);
                        }
                        return None;
                    },
                },
                None => {
                    proof {
                        lemma_digit_run_skip(r1, (j - h) as int + 1);
                        lemma_digit_run_skip(r1, digit_run(r1) as int);
                        lemma_digits_value_grows(r1, (j - h) as int + 1, digit_run(r1) as int);
                    }
                    return None;
                },
            }
            j = j + 1;
        }
        let ghost n = (j - h) as int;
        proof {
            lemma_digit_run_skip(r1, n);
            if j < b.len() {
                assert(r1.skip(n)[0] == b@[j as int]);
            }
            assert(digit_run(r1) == n);
        }
        if j == h {
            return None;
        }
        if b.len() - j < 4 || b[j] != 13 || b[j + 1] != 10 || b[j + 2] != 13 || b[j + 3] != 10 {
            proof {
                let r2 = r1.skip(n);
                if r2.len() >= 4 {
                    assert(r2.take(4)[0] == b@[j as int]);
                    assert(r2.take(4)[1] == b@[j + 1]);
                    assert(r2.take(4)[2] == b@[j + 2]);
                    assert(r2.take(4)[3] == b@[j + 3]);
                }
            }
            return None;
        }
        let body = j + 4;
        if b.len() - body < count {
            return None;
        }
        let payload = copy_range(b, body, count);
        proof {
            let r2 = r1.skip(n);
            assert(r2.take(4) =~= header_end());
            assert(r2.skip(4).take(count as int) =~= payload@);
        }
        utf8_text(payload.as_slice())
    }

    /// The event of the frame at the front of `b`, when a whole frame is
    /// there; `None` asks for more input.
    pub fn decode(&self, b: &[u8]) -> (r: Option<LspEvent>)
        ensures
            r is Some <==> decoded(b@) is Some,
            r is Some ==> match r.unwrap() {
                LspEvent::Message(m) => encode_utf8(m@) == decoded(b@).unwrap(),
            },
    {
        match self.decode_message(b) {
            Some(m) => Some(LspEvent::Message(m)),
            None => None,
        }
    }
}

} // verus!

//! Turning frames into bytes and reading them back from a buffer.
use vstd::prelude::*;
use vstd::utf8::*;

use crate::frame::{
    be_bytes, be_value, byte_pow, lemma_be_value_bound, lemma_byte_pow_mono, lemma_parse_len, encode_items, encode_model, int_code, int_of_code, parse, parse_items, well_sized,
    word, Frame, FrameModel, Parsed, ARRAY_MARK, BULK_MARK, ERROR_MARK, INTEGER_MARK, NULL_MARK,
    SIMPLE_MARK, WORD,
};

verus! {

/// Result of reading the front of a buffer.
#[derive(Debug, PartialEq, Eq)]
pub enum Decoded {
    /// A whole frame, and how many bytes of the buffer it took.
    Frame(Frame, usize),
    /// The buffer holds only the start of a frame.
    Incomplete,
    /// The buffer does not start with a frame.
    Invalid,
}

impl Decoded {
    pub open spec fn model(self) -> Parsed {
        match self {
            Decoded::Frame(f, n) => Parsed::Done(f.model(), n as nat),
            Decoded::Incomplete => Parsed::Incomplete,
            Decoded::Invalid => Parsed::Invalid,
        }
    }
}

/// Relies on `String::from_utf8`: it accepts exactly the valid UTF-8
/// sequences, and the string it builds holds the characters they encode.
#[verifier::external_body]
pub(crate) fn string_from_utf8(bytes: Vec<u8>) -> (r: Option<String>)
    ensures
        r is Some <==> valid_utf8(bytes@),
        r matches Some(s) ==> s@ == decode_utf8(bytes@),
{
    String::from_utf8(bytes).ok()
}

/// Appends the low `n` bytes of `v`, most significant first.
fn push_be(out: &mut Vec<u8>, v: u64, n: usize)
    requires
        n <= WORD,
    ensures
        final(out)@ == old(out)@ + be_bytes(v as nat, n as nat),
    decreases n,
{
    if n > 0 {
        push_be(out, v / 256, n - 1);
        out.push((v % 256) as u8);
        proof {
            assert(final(out)@ =~= old(out)@ + be_bytes(v as nat, n as nat));
        }
    }
}

fn push_bytes(out: &mut Vec<u8>, b: &[u8])
    ensures
        final(out)@ == old(out)@ + b@,
{
    let mut i: usize = 0;
    while i < b.len()
        invariant
            i <= b@.len(),
            out@ == old(out)@ + b@.subrange(0, i as int),
        decreases b@.len() - i,
    {
        out.push(b[i]);
        i += 1;
        proof {
            assert(out@ =~= old(out)@ + b@.subrange(0, i as int));
        }
    }
    proof {
        assert(b@.subrange(0, i as int) =~= b@);
    }
}

fn int_to_code(i: i64) -> (r: u64)
    ensures
        r as nat == int_code(i),
{
    if i >= 0 {
        i as u64
    } else {
        u64::MAX - ((-(i + 1)) as u64)
    }
}

fn code_to_int(n: u64) -> (r: i64)
    ensures
        r == int_of_code(n as nat),
{
    if n < 0x8000_0000_0000_0000 {
        n as i64
    } else {
        -((u64::MAX - n) as i64) - 1
    }
}

/// Appends the encoding of `f` to `out`.
pub fn encode_into(f: &Frame, out: &mut Vec<u8>)
    ensures
        final(out)@ == old(out)@ + encode_model(f.model()),
        well_sized(f.model()),
    decreases f,
{
    match f {
        Frame::Simple(s) => {
            let b = s.as_str().as_bytes();
            out.push(SIMPLE_MARK);
            push_be(out, b.len() as u64, WORD);
            push_bytes(out, b);
        },
        Frame::Error(s) => {
            let b = s.as_str().as_bytes();
            out.push(ERROR_MARK);
            push_be(out, b.len() as u64, WORD);
            push_bytes(out, b);
        },
        Frame::Integer(i) => {
            out.push(INTEGER_MARK);
            push_be(out, int_to_code(*i), WORD);
        },
        Frame::Bulk(b) => {
            out.push(BULK_MARK);
            push_be(out, b.len() as u64, WORD);
            push_bytes(out, b.as_slice());
        },
        Frame::Null => {
            out.push(NULL_MARK);
        },
        Frame::Array(items) => {
            let ghost m = f.model();
            let ghost base = old(out)@;
            out.push(ARRAY_MARK);
            push_be(out, items.len() as u64, WORD);
            let ghost head = out@;
            assert(head == base + seq![ARRAY_MARK] + word(items@.len()));
            let mut i: usize = 0;
            while i < items.len()
                invariant
                    m == f.model(),
                    *f == Frame::Array(*items),
                    m is Array,
                    m->Array_0.len() == items@.len(),
                    i <= items@.len(),
                    out@ + encode_items(m, i as nat) == head + encode_items(m, 0),
                    forall|j: int| 0 <= j < i ==> well_sized(#[trigger] m->Array_0[j]),
                decreases items@.len() - i,
            {
                let ghost before = out@;
                assert(m->Array_0[i as int] == items@[i as int].model());
                assert(decreases_to!(*f => items@[i as int])) by {
                    vstd::std_specs::vec::axiom_vec_index_decreases(*items, i as int);
                }
                encode_into(&items[i], out);
                proof {
                    assert(encode_items(m, i as nat) == encode_model(m->Array_0[i as int])
                        + encode_items(m, (i + 1) as nat));
                    assert(out@ + encode_items(m, (i + 1) as nat) =~= before + encode_items(
                        m,
                        i as nat,
                    ));
                }
                i += 1;
            }
            proof {
                assert(encode_items(m, i as nat) =~= Seq::<u8>::empty());
                assert(out@ =~= base + encode_model(m));
            }
        },
    }
}

/// The encoding of one frame.
pub fn encode(f: &Frame) -> (r: Vec<u8>)
    ensures
        r@ == encode_model(f.model()),
        well_sized(f.model()),
{
    let mut out: Vec<u8> = Vec::new();
    encode_into(f, &mut out);
    proof {
        assert(out@ =~= encode_model(f.model()));
    }
    out
}

/// The number that `n` bytes of `buf` from `pos` on denote, most
/// significant first.
fn read_be(buf: &[u8], pos: usize, n: usize) -> (r: u64)
    requires
        n <= WORD,
        pos + n <= buf@.len(),
    ensures
        r as nat == be_value(buf@.subrange(pos as int, pos + n)),
    decreases n,
{
    if n == 0 {
        0
    } else {
        let hi = read_be(buf, pos, n - 1);
        let len = buf.len();
        assert(pos + n <= len);
        let last = buf[pos + (n - 1)];
        let ghost front = buf@.subrange(pos as int, pos + n - 1);
        proof {
            lemma_be_value_bound(front);
            lemma_byte_pow_mono((n - 1) as nat, 7);
            reveal_with_fuel(byte_pow, 8);
            assert(buf@.subrange(pos as int, pos + n).drop_last() =~= front);
            assert(hi * 256 + 255 <= u64::MAX) by (nonlinear_arith)
                requires
                    hi < 0x100_0000_0000_0000,
            ;
        }
        hi * 256 + last as u64
    }
}

/// The bytes of `buf` from `from` up to `to`.
fn copy_range(buf: &[u8], from: usize, to: usize) -> (r: Vec<u8>)
    requires
        from <= to <= buf@.len(),
    ensures
        r@ == buf@.subrange(from as int, to as int),
{
    let mut r: Vec<u8> = Vec::new();
    let mut i: usize = from;
    while i < to
        invariant
            from <= i <= to <= buf@.len(),
            r@ == buf@.subrange(from as int, i as int),
        decreases to - i,
    {
        r.push(buf[i]);
        i += 1;
        proof {
            assert(r@ =~= buf@.subrange(from as int, i as int));
        }
    }
    r
}

/// What reading the remaining items of an array gives, once `acc` has been
/// read in `c` bytes.
pub open spec fn prepend_items(acc: Seq<FrameModel>, c: nat, rest: Parsed) -> Parsed {
    match rest {
        Parsed::Done(FrameModel::Array(more), m) => Parsed::Done(
            FrameModel::Array(acc + more),
            c + m,
        ),
        Parsed::Done(_, _) => Parsed::Invalid,
        other => other,
    }
}

/// Reads the frame that starts at `pos`.
fn decode_at(buf: &[u8], pos: usize) -> (r: Decoded)
    requires
        pos <= buf@.len(),
    ensures
        r.model() == parse(buf@.subrange(pos as int, buf@.len() as int)),
        r matches Decoded::Frame(_, m) ==> m <= buf@.len() - pos,
    decreases buf@.len() - pos, 0nat,
{
    let ghost s = buf@.subrange(pos as int, buf@.len() as int);
    if pos == buf.len() {
        return Decoded::Incomplete;
    }
    let mark = buf[pos];
    if mark == NULL_MARK {
        return Decoded::Frame(Frame::Null, 1);
    }
    if mark != SIMPLE_MARK && mark != ERROR_MARK && mark != INTEGER_MARK && mark != BULK_MARK
        && mark != ARRAY_MARK {
        return Decoded::Invalid;
    }
    if buf.len() - pos < 1 + WORD {
        return Decoded::Incomplete;
    }
    let n = read_be(buf, pos + 1, WORD);
    let h: usize = 1 + WORD;
    assert(s.subrange(1, h as int) =~= buf@.subrange(pos + 1, pos + 1 + WORD));
    if mark == INTEGER_MARK {
        return Decoded::Frame(Frame::Integer(code_to_int(n)), h);
    }
    if mark == ARRAY_MARK {
        assert(s.subrange(h as int, s.len() as int) =~= buf@.subrange(pos + h, buf@.len() as int));
        return match decode_items(buf, pos + h, n) {
            Decoded::Frame(items, m) => Decoded::Frame(items, h + m),
            other => other,
        };
    }
    if n > (buf.len() - pos - h) as u64 {
        return Decoded::Incomplete;
    }
    let end = pos + h + n as usize;
    let body = copy_range(buf, pos + h, end);
    assert(body@ == s.subrange(h as int, h + n));
    if mark == BULK_MARK {
        return Decoded::Frame(Frame::Bulk(body), h + n as usize);
    }
    match string_from_utf8(body) {
        None => Decoded::Invalid,
        Some(text) => if mark == SIMPLE_MARK {
            Decoded::Frame(Frame::Simple(text), h + n as usize)
        } else {
            Decoded::Frame(Frame::Error(text), h + n as usize)
        },
    }
}

/// Reads `k` frames one after another from `pos` on, as an array.
fn decode_items(buf: &[u8], pos: usize, k: u64) -> (r: Decoded)
    requires
        pos <= buf@.len(),
    ensures
        r.model() == parse_items(buf@.subrange(pos as int, buf@.len() as int), k as nat),
        r matches Decoded::Frame(_, m) ==> m <= buf@.len() - pos,
    decreases buf@.len() - pos, 1nat,
{
    let ghost t0 = buf@.subrange(pos as int, buf@.len() as int);
    let mut items: Vec<Frame> = Vec::new();
    let mut c: usize = 0;
    let mut i: u64 = 0;
    let len = buf.len();
    proof {
        assert(Frame::Array(items).model()->Array_0 =~= Seq::<FrameModel>::empty());
        assert(buf@.subrange(pos + c, buf@.len() as int) =~= t0);
    }
    while i < k
        invariant
            pos + c <= buf@.len(),
            len == buf@.len(),
            i <= k,
            t0 == buf@.subrange(pos as int, buf@.len() as int),
            parse_items(t0, k as nat) == prepend_items(
                Frame::Array(items).model()->Array_0,
                c as nat,
                parse_items(buf@.subrange(pos + c, buf@.len() as int), (k - i) as nat),
            ),
        decreases k - i,
    {
        let ghost tc = buf@.subrange(pos + c, buf@.len() as int);
        let ghost acc = Frame::Array(items).model()->Array_0;
        let r = decode_at(buf, pos + c);
        match r {
            Decoded::Frame(f, m) => {
                proof {
                    lemma_parse_len(tc);
                }
                let ghost fm = f.model();
                items.push(f);
                proof {
                    assert(Frame::Array(items).model()->Array_0 =~= acc.push(fm));
                    assert(tc.subrange(m as int, tc.len() as int) =~= buf@.subrange(
                        pos + c + m,
                        buf@.len() as int,
                    ));
                    let rest = parse_items(tc.subrange(m as int, tc.len() as int), (k - i - 1) as nat);
                    match rest {
                        Parsed::Done(FrameModel::Array(more), _) => {
                            assert(acc + (seq![fm] + more) =~= acc.push(fm) + more);
                        },
                        _ => {},
                    }
                }
                c = c + m;
            },
            Decoded::Incomplete => {
                return Decoded::Incomplete;
            },
            Decoded::Invalid => {
                return Decoded::Invalid;
            },
        }
        i = i + 1;
    }
    proof {
        assert(Frame::Array(items).model()->Array_0 + Seq::<FrameModel>::empty() =~= Frame::Array(
            items,
        ).model()->Array_0);
    }
    Decoded::Frame(Frame::Array(items), c)
}

/// Reads the frame at the front of `buf`.
pub fn decode(buf: &[u8]) -> (r: Decoded)
    ensures
        r.model() == parse(buf@),
        r matches Decoded::Frame(_, m) ==> m <= buf@.len(),
{
    assert(buf@.subrange(0, buf@.len() as int) =~= buf@);
    decode_at(buf, 0)
}

/// What is left of `buf` once its first frame has been read: everything
/// after that frame, nothing if `buf` does not start with a frame, and all
/// of it if the frame is not complete yet.
pub open spec fn after_read(buf: Seq<u8>) -> Seq<u8> {
    match parse(buf) {
        Parsed::Done(_, n) => buf.subrange(n as int, buf.len() as int),
        Parsed::Invalid => Seq::empty(),
        Parsed::Incomplete => buf,
    }
}

/// Bytes received from a stream and not yet read as frames.
pub struct FrameBuffer {
    bytes: Vec<u8>,
}

impl View for FrameBuffer {
    type V = Seq<u8>;

    closed spec fn view(&self) -> Seq<u8> {
        self.bytes@
    }
}

impl FrameBuffer {
    pub fn new() -> (r: FrameBuffer)
        ensures
            r@ == Seq::<u8>::empty(),
    {
        FrameBuffer { bytes: Vec::new() }
    }

    /// Adds bytes that arrived.
    pub fn receive(&mut self, data: &[u8])
        ensures
            final(self)@ == old(self)@ + data@,
    {
        push_bytes(&mut self.bytes, data);
    }

    /// Reads the first frame, and drops the bytes it took. Bytes that do not
    /// start a frame are all dropped; an incomplete frame stays for later.
    pub fn next_frame(&mut self) -> (r: Decoded)
        ensures
            r.model() == parse(old(self)@),
            final(self)@ == after_read(old(self)@),
    {
        let r = decode(self.bytes.as_slice());
        match r {
            Decoded::Frame(_, n) => {
                self.bytes = copy_range(self.bytes.as_slice(), n, self.bytes.len());
            },
            Decoded::Invalid => {
                self.bytes = Vec::new();
            },
            Decoded::Incomplete => {},
        }
        r
    }
}

} // verus!

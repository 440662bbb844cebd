//! Frames: the messages of the wire protocol, and their byte encoding.
//!
//! Every frame starts with a one-byte marker. Text, byte strings and arrays
//! carry their length as an eight-byte big-endian word, integers carry their
//! two's-complement value in such a word. Nothing is ever found by scanning
//! for a terminator, so a stream can carry any number of frames back to back.
use vstd::prelude::*;
use vstd::utf8::*;

verus! {

pub const SIMPLE_MARK: u8 = 43;
pub const ERROR_MARK: u8 = 45;
pub const INTEGER_MARK: u8 = 58;
pub const BULK_MARK: u8 = 36;
pub const NULL_MARK: u8 = 95;
pub const ARRAY_MARK: u8 = 42;

/// Number of bytes in a length or integer word.
pub const WORD: usize = 8;

/// 2^64: one more than the largest number a word holds.
pub open spec fn word_limit() -> nat {
    0x1_0000_0000_0000_0000
}

/// One protocol message.
#[derive(Debug, PartialEq, Eq)]
pub enum Frame {
    Simple(String),
    Error(String),
    Integer(i64),
    Bulk(Vec<u8>),
    Null,
    Array(Vec<Frame>),
}

/// What a frame denotes, with text as characters and bytes as sequences.
pub enum FrameModel {
    Simple(Seq<char>),
    Error(Seq<char>),
    Integer(i64),
    Bulk(Seq<u8>),
    Null,
    Array(Seq<FrameModel>),
}

impl Frame {
    pub open spec fn model(self) -> FrameModel
        decreases self,
    {
        match self {
            Frame::Simple(s) => FrameModel::Simple(s@),
            Frame::Error(s) => FrameModel::Error(s@),
            Frame::Integer(i) => FrameModel::Integer(i),
            Frame::Bulk(b) => FrameModel::Bulk(b@),
            Frame::Null => FrameModel::Null,
            Frame::Array(v) => FrameModel::Array(
                Seq::new(v.len() as nat, |i: int| if 0 <= i < v.len() { v@[i].model() } else { FrameModel::Null }),
            ),
        }
    }
}

/// `v` as `n` bytes, most significant first (the low `n` bytes of `v`).
pub open spec fn be_bytes(v: nat, n: nat) -> Seq<u8>
    decreases n,
{
    if n == 0 {
        Seq::empty()
    } else {
        be_bytes(v / 256, (n - 1) as nat).push((v % 256) as u8)
    }
}

/// The number that bytes denote, most significant first.
pub open spec fn be_value(s: Seq<u8>) -> nat
    decreases s.len(),
{
    if s.len() == 0 {
        0
    } else {
        (be_value(s.drop_last()) * 256 + s.last()) as nat
    }
}

/// 256^n: how many numbers `n` bytes can hold.
pub open spec fn byte_pow(n: nat) -> nat
    decreases n,
{
    if n == 0 {
        1
    } else {
        256 * byte_pow((n - 1) as nat)
    }
}

pub open spec fn word(v: nat) -> Seq<u8> {
    be_bytes(v, WORD as nat)
}

/// Two's-complement code of an integer, as a number below 2^64.
pub open spec fn int_code(i: i64) -> nat {
    if i >= 0 {
        i as nat
    } else {
        (i + 0x1_0000_0000_0000_0000) as nat
    }
}

pub open spec fn encode_model(f: FrameModel) -> Seq<u8>
    decreases f, 1nat, 0nat,
{
    match f {
        FrameModel::Simple(s) => seq![SIMPLE_MARK] + word(encode_utf8(s).len()) + encode_utf8(s),
        FrameModel::Error(s) => seq![ERROR_MARK] + word(encode_utf8(s).len()) + encode_utf8(s),
        FrameModel::Integer(i) => seq![INTEGER_MARK] + word(int_code(i)),
        FrameModel::Bulk(b) => seq![BULK_MARK] + word(b.len()) + b,
        FrameModel::Null => seq![NULL_MARK],
        FrameModel::Array(items) => seq![ARRAY_MARK] + word(items.len()) + encode_items(f, 0),
    }
}

/// Encodings of the elements of an array from index `i` on, concatenated.
pub open spec fn encode_items(f: FrameModel, i: nat) -> Seq<u8>
    decreases f, 0nat, (if f is Array { f->Array_0.len() - i } else { 0 }),
{
    match f {
        FrameModel::Array(items) => if i < items.len() {
            encode_model(items[i as int]) + encode_items(f, i + 1)
        } else {
            Seq::empty()
        },
        _ => Seq::empty(),
    }
}

/// Lengths of text, byte strings and arrays fit in a word, at every depth.
pub open spec fn well_sized(f: FrameModel) -> bool
    decreases f,
{
    match f {
        FrameModel::Simple(s) => encode_utf8(s).len() < word_limit(),
        FrameModel::Error(s) => encode_utf8(s).len() < word_limit(),
        FrameModel::Bulk(b) => b.len() < word_limit(),
        FrameModel::Array(items) => items.len() < word_limit() && forall|i: int|
            0 <= i < items.len() ==> well_sized(#[trigger] items[i]),
        _ => true,
    }
}

/// Outcome of reading one frame from the front of a byte sequence.
pub enum Parsed {
    /// A whole frame, and how many bytes it took.
    Done(FrameModel, nat),
    /// The bytes so far are the start of a frame; more are needed.
    Incomplete,
    /// No frame starts with these bytes.
    Invalid,
}

/// Inverse of `int_code` on numbers below 2^64.
pub open spec fn int_of_code(n: nat) -> i64 {
    if n < 0x8000_0000_0000_0000 {
        n as i64
    } else {
        (n - 0x1_0000_0000_0000_0000) as i64
    }
}

/// Reads the frame at the front of `s`.
pub open spec fn parse(s: Seq<u8>) -> Parsed
    decreases s.len(), 0nat,
{
    if s.len() == 0 {
        Parsed::Incomplete
    } else if s[0] == NULL_MARK {
        Parsed::Done(FrameModel::Null, 1)
    } else if s[0] != SIMPLE_MARK && s[0] != ERROR_MARK && s[0] != INTEGER_MARK && s[0] != BULK_MARK
        && s[0] != ARRAY_MARK {
        Parsed::Invalid
    } else if s.len() < 1 + WORD {
        Parsed::Incomplete
    } else {
        let n = be_value(s.subrange(1, 1 + WORD));
        let h = 1 + WORD;
        if s[0] == INTEGER_MARK {
            Parsed::Done(FrameModel::Integer(int_of_code(n)), h as nat)
        } else if s[0] == ARRAY_MARK {
            match parse_items(s.subrange(h, s.len() as int), n) {
                Parsed::Done(items, m) => Parsed::Done(items, (h + m) as nat),
                other => other,
            }
        } else if s.len() < h + n {
            Parsed::Incomplete
        } else {
            let body = s.subrange(h, h + n);
            if s[0] == BULK_MARK {
                Parsed::Done(FrameModel::Bulk(body), (h + n) as nat)
            } else if !valid_utf8(body) {
                Parsed::Invalid
            } else if s[0] == SIMPLE_MARK {
                Parsed::Done(FrameModel::Simple(decode_utf8(body)), (h + n) as nat)
            } else {
                Parsed::Done(FrameModel::Error(decode_utf8(body)), (h + n) as nat)
            }
        }
    }
}

/// Reads `k` frames one after another from the front of `t`; a whole
/// result is an `Array` of them.
pub open spec fn parse_items(t: Seq<u8>, k: nat) -> Parsed
    decreases t.len(), 1nat,
{
    if k == 0 {
        Parsed::Done(FrameModel::Array(Seq::empty()), 0)
    } else {
        match parse(t) {
            Parsed::Done(first, m) => if 0 < m <= t.len() {
                match parse_items(t.subrange(m as int, t.len() as int), (k - 1) as nat) {
                    Parsed::Done(FrameModel::Array(more), m2) => Parsed::Done(
                        FrameModel::Array(seq![first] + more),
                        (m + m2) as nat,
                    ),
                    Parsed::Done(_, _) => Parsed::Invalid,
                    other => other,
                }
            } else {
                Parsed::Invalid
            },
            other => other,
        }
    }
}

/// A frame read from the front of `s` takes at least one byte and no more
/// than `s` holds.
pub proof fn lemma_parse_len(s: Seq<u8>)
    ensures
        parse(s) matches Parsed::Done(_, m) ==> 0 < m <= s.len(),
    decreases s.len(), 0nat,
{
    if s.len() > 0 && s[0] == ARRAY_MARK && s.len() >= 1 + WORD {
        lemma_parse_items_len(s.subrange(1 + WORD, s.len() as int), be_value(s.subrange(1, 1 + WORD)));
    }
}

proof fn lemma_parse_items_len(t: Seq<u8>, k: nat)
    ensures
        parse_items(t, k) matches Parsed::Done(_, m) ==> m <= t.len(),
    decreases t.len(), 1nat,
{
    if k > 0 {
        lemma_parse_len(t);
        if let Parsed::Done(_, m) = parse(t) {
            if 0 < m <= t.len() {
                lemma_parse_items_len(t.subrange(m as int, t.len() as int), (k - 1) as nat);
            }
        }
    }
}

pub proof fn lemma_be_bytes_len(v: nat, n: nat)
    ensures
        be_bytes(v, n).len() == n,
    decreases n,
{
    if n > 0 {
        lemma_be_bytes_len(v / 256, (n - 1) as nat);
    }
}

/// Reading back `n` bytes written from a number below 256^n gives the number.
pub proof fn lemma_be_round_trip(v: nat, n: nat)
    requires
        v < byte_pow(n),
    ensures
        be_value(be_bytes(v, n)) == v,
    decreases n,
{
    if n > 0 {
        let p = byte_pow((n - 1) as nat);
        assert(byte_pow(n) == 256 * p);
        assert(v / 256 < p) by (nonlinear_arith)
            requires
                v < 256 * p,
        ;
        lemma_be_round_trip(v / 256, (n - 1) as nat);
        assert(be_bytes(v, n).drop_last() =~= be_bytes(v / 256, (n - 1) as nat));
        assert(v == (v / 256) * 256 + v % 256) by (nonlinear_arith);
    }
}

pub proof fn lemma_byte_pow_mono(a: nat, b: nat)
    requires
        a <= b,
    ensures
        byte_pow(a) <= byte_pow(b),
    decreases b,
{
    if a < b {
        lemma_byte_pow_mono(a, (b - 1) as nat);
    }
}

/// `n` bytes denote a number below 256^n.
pub proof fn lemma_be_value_bound(s: Seq<u8>)
    ensures
        be_value(s) < byte_pow(s.len()),
    decreases s.len(),
{
    if s.len() > 0 {
        let d = s.drop_last();
        lemma_be_value_bound(d);
        let (x, p) = (be_value(d), byte_pow(d.len()));
        assert(x * 256 + s.last() < 256 * p) by (nonlinear_arith)
            requires
                x < p,
                s.last() < 256,
        ;
    }
}

pub proof fn lemma_word_round_trip(v: nat)
    requires
        v < word_limit(),
    ensures
        be_value(word(v)) == v,
        word(v).len() == WORD,
{
    reveal_with_fuel(byte_pow, 9);
    assert(byte_pow(8) == 0x1_0000_0000_0000_0000);
    lemma_be_round_trip(v, 8);
    lemma_be_bytes_len(v, 8);
}

pub proof fn lemma_int_code(i: i64)
    ensures
        int_code(i) < word_limit(),
        int_of_code(int_code(i)) == i,
{
}

/// A frame is read back, whole and exactly, from the front of its own
/// encoding followed by any bytes.
pub proof fn lemma_parse_encode(f: FrameModel, rest: Seq<u8>)
    requires
        well_sized(f),
    ensures
        parse(encode_model(f) + rest) == Parsed::Done(f, encode_model(f).len()),
    decreases f, 1nat, 0nat,
{
    let s = encode_model(f) + rest;
    let h = 1 + WORD;
    match f {
        FrameModel::Simple(c) => {
            let e = encode_utf8(c);
            lemma_word_round_trip(e.len());
            assert(s.subrange(1, h as int) =~= word(e.len()));
            assert(s.subrange(h as int, h + e.len()) =~= e);
            encode_utf8_valid_utf8(c);
            encode_utf8_decode_utf8(c);
        },
        FrameModel::Error(c) => {
            let e = encode_utf8(c);
            lemma_word_round_trip(e.len());
            assert(s.subrange(1, h as int) =~= word(e.len()));
            assert(s.subrange(h as int, h + e.len()) =~= e);
            encode_utf8_valid_utf8(c);
            encode_utf8_decode_utf8(c);
        },
        FrameModel::Integer(i) => {
            lemma_int_code(i);
            lemma_word_round_trip(int_code(i));
            assert(s.subrange(1, h as int) =~= word(int_code(i)));
        },
        FrameModel::Bulk(b) => {
            lemma_word_round_trip(b.len());
            assert(s.subrange(1, h as int) =~= word(b.len()));
            assert(s.subrange(h as int, h + b.len()) =~= b);
        },
        FrameModel::Null => {},
        FrameModel::Array(items) => {
            lemma_word_round_trip(items.len());
            assert(s.subrange(1, h as int) =~= word(items.len()));
            assert(s.subrange(h as int, s.len() as int) =~= encode_items(f, 0) + rest);
            lemma_parse_encode_items(f, 0, rest);
            assert(items.subrange(0, items.len() as int) =~= items);
        },
    }
}

proof fn lemma_parse_encode_items(f: FrameModel, i: nat, rest: Seq<u8>)
    requires
        f is Array,
        well_sized(f),
        i <= f->Array_0.len(),
    ensures
        parse_items(encode_items(f, i) + rest, (f->Array_0.len() - i) as nat) == Parsed::Done(
            FrameModel::Array(f->Array_0.subrange(i as int, f->Array_0.len() as int)),
            encode_items(f, i).len(),
        ),
    decreases f, 0nat, f->Array_0.len() - i,
{
    let items = f->Array_0;
    if i == items.len() {
        assert(encode_items(f, i) + rest =~= rest);
        assert(items.subrange(i as int, items.len() as int) =~= Seq::<FrameModel>::empty());
    } else {
        let e = encode_model(items[i as int]);
        let t = encode_items(f, i) + rest;
        assert(t =~= e + (encode_items(f, i + 1) + rest));
        lemma_parse_encode(items[i as int], encode_items(f, i + 1) + rest);
        assert(t.subrange(e.len() as int, t.len() as int) =~= encode_items(f, i + 1) + rest);
        lemma_parse_encode_items(f, i + 1, rest);
        assert(seq![items[i as int]] + items.subrange(i + 1 as int, items.len() as int) =~= items.subrange(
            i as int,
            items.len() as int,
        ));
    }
}

/// No proper prefix of an encoding reads as a frame or as invalid: it is
/// always incomplete.
pub proof fn lemma_parse_prefix(f: FrameModel, n: nat)
    requires
        well_sized(f),
        n < encode_model(f).len(),
    ensures
        parse(encode_model(f).subrange(0, n as int)) == Parsed::Incomplete,
    decreases f, 1nat, 0nat,
{
    let p = encode_model(f).subrange(0, n as int);
    let h = 1 + WORD;
    if n >= h {
        match f {
            FrameModel::Simple(c) => {
                lemma_word_round_trip(encode_utf8(c).len());
                assert(p.subrange(1, h as int) =~= word(encode_utf8(c).len()));
            },
            FrameModel::Error(c) => {
                lemma_word_round_trip(encode_utf8(c).len());
                assert(p.subrange(1, h as int) =~= word(encode_utf8(c).len()));
            },
            FrameModel::Integer(i) => {
                lemma_int_code(i);
                lemma_word_round_trip(int_code(i));
            },
            FrameModel::Bulk(b) => {
                lemma_word_round_trip(b.len());
                assert(p.subrange(1, h as int) =~= word(b.len()));
            },
            FrameModel::Null => {},
            FrameModel::Array(items) => {
                lemma_word_round_trip(items.len());
                assert(p.subrange(1, h as int) =~= word(items.len()));
                let k = (n - h) as nat;
                assert(p.subrange(h as int, p.len() as int) =~= encode_items(f, 0).subrange(0, k as int));
                lemma_parse_items_prefix(f, 0, k);
            },
        }
    }
}

proof fn lemma_parse_items_prefix(f: FrameModel, i: nat, n: nat)
    requires
        f is Array,
        well_sized(f),
        i <= f->Array_0.len(),
        n < encode_items(f, i).len(),
    ensures
        parse_items(encode_items(f, i).subrange(0, n as int), (f->Array_0.len() - i) as nat)
            == Parsed::Incomplete,
    decreases f, 0nat, f->Array_0.len() - i,
{
    let items = f->Array_0;
    let e = encode_model(items[i as int]);
    let t = encode_items(f, i).subrange(0, n as int);
    if n < e.len() {
        assert(t =~= e.subrange(0, n as int));
        lemma_parse_prefix(items[i as int], n);
    } else {
        let more = encode_items(f, i + 1).subrange(0, n - e.len());
        assert(t =~= e + more);
        lemma_parse_encode(items[i as int], more);
        assert(t.subrange(e.len() as int, t.len() as int) =~= more);
        lemma_parse_items_prefix(f, i + 1, (n - e.len()) as nat);
    }
}

} // verus!

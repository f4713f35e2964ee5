//! The binary codec for stored values.
//!
//! A `GeohashValue` is persisted as a length-prefixed tagged union: a tag
//! byte (0 for a direct value, 1 for an undecided cell), then each byte
//! string as its 64-bit little-endian length followed by its bytes, and an
//! undecided cell's option count as a 64-bit little-endian integer before
//! its options. The encoding is stable, and decoding an encoded value
//! yields the original bit-exactly (`lemma_codec_round_trip`).

use vstd::prelude::*;
use crate::types::{GeohashValue, UndecidedValue};

verus! {

/// The mathematical form of one stored option.
pub struct UndecidedModel {
    pub value: Seq<u8>,
    pub shape: Seq<u8>,
}

/// The mathematical form of a stored value.
pub enum ValueModel {
    Direct { value: Seq<u8> },
    Undecided { options: Seq<UndecidedModel> },
}

impl View for UndecidedValue {
    type V = UndecidedModel;

    open spec fn view(&self) -> UndecidedModel {
        UndecidedModel { value: self.value@, shape: self.shape@ }
    }
}

/// The models of a list of options.
pub open spec fn options_view(v: Seq<UndecidedValue>) -> Seq<UndecidedModel> {
    v.map_values(|o: UndecidedValue| o@)
}

impl View for GeohashValue {
    type V = ValueModel;

    open spec fn view(&self) -> ValueModel {
        match self {
            GeohashValue::DirectValue { value } => ValueModel::Direct { value: value@ },
            GeohashValue::Undecided { options } => ValueModel::Undecided {
                options: options_view(options@),
            },
        }
    }
}

/// A 64-bit integer as its 8 little-endian bytes.
pub open spec fn u64_le(n: u64) -> Seq<u8> {
    seq![
        (n & 0xff) as u8,
        ((n >> 8) & 0xff) as u8,
        ((n >> 16) & 0xff) as u8,
        ((n >> 24) & 0xff) as u8,
        ((n >> 32) & 0xff) as u8,
        ((n >> 40) & 0xff) as u8,
        ((n >> 48) & 0xff) as u8,
        ((n >> 56) & 0xff) as u8,
    ]
}

/// The 64-bit integer read from 8 little-endian bytes.
pub open spec fn u64_from_le(s: Seq<u8>) -> u64 {
    (s[0] as u64) | ((s[1] as u64) << 8) | ((s[2] as u64) << 16) | ((s[3] as u64) << 24)
        | ((s[4] as u64) << 32) | ((s[5] as u64) << 40) | ((s[6] as u64) << 48)
        | ((s[7] as u64) << 56)
}

pub proof fn lemma_u64_le_round(n: u64)
    ensures
        u64_le(n).len() == 8,
        u64_from_le(u64_le(n)) == n,
{
    assert((((n & 0xff) as u8) as u64) | ((((n >> 8) & 0xff) as u8) as u64) << 8
        | ((((n >> 16) & 0xff) as u8) as u64) << 16 | ((((n >> 24) & 0xff) as u8) as u64) << 24
        | ((((n >> 32) & 0xff) as u8) as u64) << 32 | ((((n >> 40) & 0xff) as u8) as u64) << 40
        | ((((n >> 48) & 0xff) as u8) as u64) << 48 | ((((n >> 56) & 0xff) as u8) as u64) << 56
        == n) by (bit_vector);
}

/// A byte string as its length-prefixed encoding.
pub open spec fn enc_chunk(b: Seq<u8>) -> Seq<u8> {
    u64_le(b.len() as u64) + b
}

/// One option as its encoding: the value chunk, then the shape chunk.
pub open spec fn enc_option(o: UndecidedModel) -> Seq<u8> {
    enc_chunk(o.value) + enc_chunk(o.shape)
}

/// A list of options as its encoding, in order.
pub open spec fn enc_options(opts: Seq<UndecidedModel>) -> Seq<u8>
    decreases opts.len(),
{
    if opts.len() == 0 {
        Seq::empty()
    } else {
        enc_option(opts[0]) + enc_options(opts.drop_first())
    }
}

/// A stored value as its encoding.
pub open spec fn enc_value(m: ValueModel) -> Seq<u8> {
    match m {
        ValueModel::Direct { value } => seq![0u8] + enc_chunk(value),
        ValueModel::Undecided { options } => seq![1u8] + u64_le(options.len() as u64)
            + enc_options(options),
    }
}

/// Every byte string of the value fits a 64-bit length, as any value built
/// from in-memory vectors does.
pub open spec fn option_wf(o: UndecidedModel) -> bool {
    o.value.len() <= u64::MAX && o.shape.len() <= u64::MAX
}

/// See `option_wf`; an undecided value also holds at most `u64::MAX`
/// options.
pub open spec fn value_wf(m: ValueModel) -> bool {
    match m {
        ValueModel::Direct { value } => value.len() <= u64::MAX,
        ValueModel::Undecided { options } => options.len() <= u64::MAX && forall|i: int|
            0 <= i < options.len() ==> #[trigger] option_wf(options[i]),
    }
}

/// Parse one length-prefixed chunk at `pos`: the chunk and the position
/// after it.
pub open spec fn parse_chunk_at(s: Seq<u8>, pos: int) -> Option<(Seq<u8>, int)> {
    if pos < 0 || pos + 8 > s.len() {
        None
    } else {
        let n = u64_from_le(s.subrange(pos, pos + 8)) as int;
        if pos + 8 + n <= s.len() {
            Some((s.subrange(pos + 8, pos + 8 + n), pos + 8 + n))
        } else {
            None
        }
    }
}

/// Parse `n` options at `pos`: the options and the position after them.
pub open spec fn parse_options_at(s: Seq<u8>, pos: int, n: nat) -> Option<(Seq<UndecidedModel>, int)>
    decreases n,
{
    if n == 0 {
        Some((Seq::empty(), pos))
    } else {
        match parse_chunk_at(s, pos) {
            None => None,
            Some((value, p1)) => match parse_chunk_at(s, p1) {
                None => None,
                Some((shape, p2)) => match parse_options_at(s, p2, (n - 1) as nat) {
                    None => None,
                    Some((rest, p3)) => Some((seq![UndecidedModel { value, shape }] + rest, p3)),
                },
            },
        }
    }
}

/// Decode a byte string as a stored value; `None` on any malformed input.
pub open spec fn dec_value(s: Seq<u8>) -> Option<ValueModel> {
    if s.len() < 1 {
        None
    } else if s[0] == 0u8 {
        match parse_chunk_at(s, 1) {
            None => None,
            Some((value, end)) => if end == s.len() {
                Some(ValueModel::Direct { value })
            } else {
                None
            },
        }
    } else if s[0] == 1u8 {
        if s.len() < 9 {
            None
        } else {
            let n = u64_from_le(s.subrange(1, 9)) as nat;
            match parse_options_at(s, 9, n) {
                None => None,
                Some((options, end)) => if end == s.len() {
                    Some(ValueModel::Undecided { options })
                } else {
                    None
                },
            }
        }
    } else {
        None
    }
}

/// Parsing at the start of an encoded chunk yields exactly that chunk.
proof fn lemma_parse_enc_chunk(s: Seq<u8>, pos: int, b: Seq<u8>)
    requires
        0 <= pos,
        b.len() <= u64::MAX,
        pos + 8 + b.len() <= s.len(),
        s.subrange(pos, pos + 8 + b.len()) == enc_chunk(b),
    ensures
        parse_chunk_at(s, pos) == Some((b, pos + 8 + b.len())),
{
    lemma_u64_le_round(b.len() as u64);
    let e = enc_chunk(b);
    assert(e.len() == 8 + b.len());
    assert(s.subrange(pos, pos + 8) =~= e.subrange(0, 8));
    assert(e.subrange(0, 8) =~= u64_le(b.len() as u64));
    assert(u64_from_le(s.subrange(pos, pos + 8)) == b.len() as u64);
    assert(s.subrange(pos + 8, pos + 8 + b.len()) =~= e.subrange(8, e.len() as int));
    assert(e.subrange(8, e.len() as int) =~= b);
}

/// Parsing at the start of an encoded option list yields exactly those
/// options.
proof fn lemma_parse_enc_options(s: Seq<u8>, pos: int, opts: Seq<UndecidedModel>)
    requires
        0 <= pos,
        forall|i: int| 0 <= i < opts.len() ==> #[trigger] option_wf(opts[i]),
        pos + enc_options(opts).len() <= s.len(),
        s.subrange(pos, pos + enc_options(opts).len()) == enc_options(opts),
    ensures
        parse_options_at(s, pos, opts.len()) == Some((opts, pos + enc_options(opts).len())),
    decreases opts.len(),
{
    if opts.len() == 0 {
        assert(parse_options_at(s, pos, 0) == Some((Seq::<UndecidedModel>::empty(), pos)));
        assert(opts =~= Seq::<UndecidedModel>::empty());
    } else {
        let o = opts[0];
        let rest = opts.drop_first();
        let eo = enc_option(o);
        let er = enc_options(rest);
        let total = enc_options(opts);
        assert(total == eo + er);
        let vlen = o.value.len() as int;
        let slen = o.shape.len() as int;
        assert(option_wf(o));
        // the value chunk
        assert(s.subrange(pos, pos + 8 + vlen) =~= enc_chunk(o.value)) by {
            assert(total.subrange(0, 8 + vlen) =~= enc_chunk(o.value));
            assert(s.subrange(pos, pos + 8 + vlen) =~=
                s.subrange(pos, pos + total.len()).subrange(0, 8 + vlen));
        }
        lemma_parse_enc_chunk(s, pos, o.value);
        let p1 = pos + 8 + vlen;
        // the shape chunk
        assert(s.subrange(p1, p1 + 8 + slen) =~= enc_chunk(o.shape)) by {
            assert(total.subrange(8 + vlen, 8 + vlen + 8 + slen) =~= enc_chunk(o.shape));
            assert(s.subrange(p1, p1 + 8 + slen) =~=
                s.subrange(pos, pos + total.len()).subrange(8 + vlen, 8 + vlen + 8 + slen));
        }
        lemma_parse_enc_chunk(s, p1, o.shape);
        let p2 = p1 + 8 + slen;
        // the remaining options
        assert(eo.len() == 16 + vlen + slen);
        assert(s.subrange(p2, p2 + er.len()) =~= er) by {
            assert(total.subrange(eo.len() as int, total.len() as int) =~= er);
            assert(s.subrange(p2, p2 + er.len()) =~=
                s.subrange(pos, pos + total.len()).subrange(eo.len() as int, total.len() as int));
        }
        assert(forall|i: int| 0 <= i < rest.len() ==> #[trigger] option_wf(rest[i]));
        lemma_parse_enc_options(s, p2, rest);
        assert(opts =~= seq![UndecidedModel { value: o.value, shape: o.shape }] + rest);
    }
}

/// Decoding an encoded value yields the original value bit-exactly.
pub proof fn lemma_codec_round_trip(m: ValueModel)
    requires
        value_wf(m),
    ensures
        dec_value(enc_value(m)) == Some(m),
{
    match m {
        ValueModel::Direct { value } => {
            let s = enc_value(m);
            assert(s.len() == 9 + value.len());
            assert(s[0] == 0u8);
            assert(s.subrange(1, 1 + 8 + value.len() as int) =~= enc_chunk(value));
            lemma_parse_enc_chunk(s, 1, value);
        }
        ValueModel::Undecided { options } => {
            let s = enc_value(m);
            let eo = enc_options(options);
            assert(s.len() == 9 + eo.len());
            assert(s[0] == 1u8);
            assert(s.subrange(1, 9) =~= u64_le(options.len() as u64));
            lemma_u64_le_round(options.len() as u64);
            assert(s.subrange(9, 9 + eo.len() as int) =~= eo);
            lemma_parse_enc_options(s, 9, options);
        }
    }
}

/// Append the 8 little-endian bytes of `n`.
fn push_u64_le(out: &mut Vec<u8>, n: u64)
    ensures
        final(out)@ == old(out)@ + u64_le(n),
{
    out.push((n & 0xff) as u8);
    out.push(((n >> 8) & 0xff) as u8);
    out.push(((n >> 16) & 0xff) as u8);
    out.push(((n >> 24) & 0xff) as u8);
    out.push(((n >> 32) & 0xff) as u8);
    out.push(((n >> 40) & 0xff) as u8);
    out.push(((n >> 48) & 0xff) as u8);
    out.push(((n >> 56) & 0xff) as u8);
    proof {
        assert(out@ =~= old(out)@ + u64_le(n));
    }
}

/// Append a length-prefixed chunk.
fn push_chunk(out: &mut Vec<u8>, b: &Vec<u8>)
    ensures
        final(out)@ == old(out)@ + enc_chunk(b@),
{
    push_u64_le(out, b.len() as u64);
    let mut i: usize = 0;
    while i < b.len()
        invariant
            i <= b.len(),
            out@ == old(out)@ + u64_le(b@.len() as u64) + b@.take(i as int),
        decreases b.len() - i,
    {
        out.push(b[i]);
        i = i + 1;
        proof {
            assert(b@.take(i as int) =~= b@.take(i - 1) + seq![b@[i - 1]]);
            assert(out@ =~= old(out)@ + u64_le(b@.len() as u64) + b@.take(i as int));
        }
    }
    proof {
        assert(b@.take(b@.len() as int) =~= b@);
        assert(out@ =~= old(out)@ + enc_chunk(b@));
    }
}

/// Appending one option extends the encoding of the options taken so far.
proof fn lemma_enc_options_snoc(opts: Seq<UndecidedModel>, i: int)
    requires
        0 <= i < opts.len(),
    ensures
        enc_options(opts.take(i + 1)) == enc_options(opts.take(i)) + enc_option(opts[i]),
    decreases i,
{
    if i == 0 {
        assert(opts.take(1).drop_first() =~= Seq::<UndecidedModel>::empty());
        assert(opts.take(1)[0] == opts[0]);
        assert(opts.take(0) =~= Seq::<UndecidedModel>::empty());
        assert(enc_options(opts.take(1)) =~= enc_options(opts.take(0)) + enc_option(opts[0]));
    } else {
        lemma_enc_options_snoc(opts.drop_first(), i - 1);
        assert(opts.take(i + 1).drop_first() =~= opts.drop_first().take(i));
        assert(opts.take(i).drop_first() =~= opts.drop_first().take(i - 1));
        assert(opts.take(i + 1)[0] == opts[0]);
        assert(opts.take(i)[0] == opts[0]);
        assert(opts.drop_first()[i - 1] == opts[i]);
        assert(enc_options(opts.take(i + 1)) =~= enc_options(opts.take(i)) + enc_option(opts[i]));
    }
}

/// Encode a stored value.
pub fn encode_value(v: &GeohashValue) -> (r: Vec<u8>)
    ensures
        r@ == enc_value(v@),
{
    let mut out: Vec<u8> = Vec::new();
    match v {
        GeohashValue::DirectValue { value } => {
            out.push(0u8);
            assert(out@ =~= seq![0u8]);
            push_chunk(&mut out, value);
        }
        GeohashValue::Undecided { options } => {
            out.push(1u8);
            assert(out@ =~= seq![1u8]);
            push_u64_le(&mut out, options.len() as u64);
            let ghost header = seq![1u8] + u64_le(options@.len() as u64);
            let mut i: usize = 0;
            while i < options.len()
                invariant
                    i <= options.len(),
                    out@ == header + enc_options(options_view(options@).take(i as int)),
                decreases options.len() - i,
            {
                let opt = &options[i];
                push_chunk(&mut out, &opt.value);
                push_chunk(&mut out, &opt.shape);
                proof {
                    lemma_enc_options_snoc(options_view(options@), i as int);
                    assert(options_view(options@)[i as int] == options@[i as int]@);
                    assert(out@ =~= header + enc_options(options_view(options@).take(i + 1)));
                }
                i = i + 1;
            }
            proof {
                assert(options_view(options@).take(options@.len() as int) =~= options_view(
                    options@));
            }
        }
    }
    out
}

/// Read the 64-bit little-endian integer at `pos`.
fn read_u64_le(b: &Vec<u8>, pos: usize) -> (r: u64)
    requires
        pos + 8 <= b.len(),
    ensures
        r == u64_from_le(b@.subrange(pos as int, pos as int + 8)),
{
    let r = (b[pos] as u64) | ((b[pos + 1] as u64) << 8u64) | ((b[pos + 2] as u64) << 16u64)
        | ((b[pos + 3] as u64) << 24u64) | ((b[pos + 4] as u64) << 32u64)
        | ((b[pos + 5] as u64) << 40u64) | ((b[pos + 6] as u64) << 48u64)
        | ((b[pos + 7] as u64) << 56u64);
    proof {
        let s = b@.subrange(pos as int, pos as int + 8);
        assert(s[0] == b@[pos as int]);
        assert(s[1] == b@[pos as int + 1]);
        assert(s[2] == b@[pos as int + 2]);
        assert(s[3] == b@[pos as int + 3]);
        assert(s[4] == b@[pos as int + 4]);
        assert(s[5] == b@[pos as int + 5]);
        assert(s[6] == b@[pos as int + 6]);
        assert(s[7] == b@[pos as int + 7]);
    }
    r
}

/// Read the length-prefixed chunk at `pos`, as `parse_chunk_at` describes.
fn read_chunk(b: &Vec<u8>, pos: usize) -> (r: Option<(Vec<u8>, usize)>)
    ensures
        r matches Some(p) ==> parse_chunk_at(b@, pos as int) == Some((p.0@, p.1 as int))
            && pos < p.1 <= b@.len(),
        r is None ==> parse_chunk_at(b@, pos as int) is None,
{
    if b.len() < 8 || pos > b.len() - 8 {
        return None;
    }
    let n = read_u64_le(b, pos);
    let avail = (b.len() - pos - 8) as u64;
    if n > avail {
        return None;
    }
    let end = pos + 8 + (n as usize);
    let chunk = vstd::slice::slice_to_vec(vstd::slice::slice_subrange(b.as_slice(), pos + 8, end));
    Some((chunk, end))
}

/// Decode a byte string as a stored value, exactly as `dec_value` does.
pub fn decode_value(b: &Vec<u8>) -> (r: Option<GeohashValue>)
    ensures
        r matches Some(v) ==> dec_value(b@) == Some(v@),
        r is None ==> dec_value(b@) is None,
{
    if b.len() < 1 {
        return None;
    }
    let tag = b[0];
    if tag == 0 {
        match read_chunk(b, 1) {
            None => None,
            Some((value, end)) => {
                if end == b.len() {
                    Some(GeohashValue::DirectValue { value })
                } else {
                    None
                }
            },
        }
    } else if tag == 1 {
        if b.len() < 9 {
            return None;
        }
        let n = read_u64_le(b, 1);
        let mut options: Vec<UndecidedValue> = Vec::new();
        let mut pos: usize = 9;
        let mut i: u64 = 0;
        proof {
            match parse_options_at(b@, 9, n as nat) {
                Some((rest, _end)) => {
                    assert(options_view(options@) + rest =~= rest);
                },
                None => {},
            }
        }
        while i < n
            invariant
                i <= n,
                9 <= pos <= b@.len(),
                options@.len() == i,
                b@.len() >= 9,
                b@[0] == 1u8,
                n == u64_from_le(b@.subrange(1, 9)),
                match parse_options_at(b@, pos as int, (n - i) as nat) {
                    None => parse_options_at(b@, 9, n as nat) is None,
                    Some((rest, end)) => parse_options_at(b@, 9, n as nat) == Some((
                        options_view(options@) + rest,
                        end,
                    )),
                },
            decreases n - i,
        {
            let value_chunk = match read_chunk(b, pos) {
                None => {
                    proof {
                        assert(parse_options_at(b@, pos as int, (n - i) as nat) is None);
                    }
                    return None;
                },
                Some(p) => p,
            };
            let shape_chunk = match read_chunk(b, value_chunk.1) {
                None => {
                    proof {
                        assert(parse_options_at(b@, pos as int, (n - i) as nat) is None);
                    }
                    return None;
                },
                Some(p) => p,
            };
            proof {
                let rem0 = (n - i) as nat;
                let p0 = pos as int;
                let p2 = shape_chunk.1 as int;
                assert(parse_options_at(b@, p0, rem0) == (
                    match parse_options_at(b@, p2, (rem0 - 1) as nat) {
                        None => None::<(Seq<UndecidedModel>, int)>,
                        Some((rest, p3)) => Some((
                            seq![
                                UndecidedModel {
                                    value: value_chunk.0@,
                                    shape: shape_chunk.0@,
                                },
                            ] + rest,
                            p3,
                        )),
                    }));
            }
            let next = UndecidedValue { value: value_chunk.0, shape: shape_chunk.0 };
            pos = shape_chunk.1;
            options.push(next);
            proof {
                assert(options_view(options@) =~= options_view(options@.drop_last()) + seq![
                    options@.last()@,
                ]);
                match parse_options_at(b@, pos as int, (n - i - 1) as nat) {
                    Some((rest, _end)) => {
                        assert(options_view(options@.drop_last()) + (seq![options@.last()@] + rest)
                            =~= options_view(options@) + rest);
                    },
                    None => {},
                }
            }
            i = i + 1;
        }
        proof {
            assert(i == n);
        }
        if pos == b.len() {
            proof {
                assert(parse_options_at(b@, pos as int, 0) == Some((
                    Seq::<UndecidedModel>::empty(),
                    pos as int,
                )));
                assert(options_view(options@) + Seq::<UndecidedModel>::empty() =~= options_view(
                    options@));
            }
            Some(GeohashValue::Undecided { options })
        } else {
            None
        }
    } else {
        None
    }
}

} // verus!

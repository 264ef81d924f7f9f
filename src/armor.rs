//! Splitting the armor trailer into its two `=`-delimited segments, decoding
//! them from base64, and checking the data against the claimed CRC-24.
//!
//! Base64 padding is tolerated when it is missing: every `=` delimits, so the
//! padding of a segment is dropped by the split, and the decoder accepts a
//! segment without it.

use crate::crc24::{calc_crc, crc24, lemma_bit_flip_detected, lemma_register_bounded, CRC24_MASK};
use rustc_serialize::base64::{FromBase64, FromBase64Error};
use vstd::prelude::*;

verus! {

#[verifier::external_type_specification]
#[verifier::external_body]
pub struct ExFromBase64Error(FromBase64Error);

/// What rustc_serialize's base64 decoder makes of a text: the decoded bytes,
/// or `None` where it reports an error.
pub uninterp spec fn base64_decoded(s: Seq<char>) -> Option<Seq<u8>>;

/// Relies on `<str as rustc_serialize::base64::FromBase64>::from_base64`: the
/// outcome depends on the text alone, and an empty text decodes to no bytes.
#[verifier::external_body]
fn decode_base64(s: &str) -> (r: Result<Vec<u8>, FromBase64Error>)
    ensures
        match r {
            Ok(v) => base64_decoded(s@) == Some(v@),
            Err(_) => base64_decoded(s@) is None,
        },
        s@.len() == 0 ==> r is Ok && r->Ok_0@.len() == 0,
{
    s.from_base64()
}

/// Why an armored text was rejected.
#[derive(Debug)]
pub enum HedwigError {
    /// The data does not have the CRC-24 that the checksum segment claims.
    Crc,
    /// The checksum segment does not decode to exactly three bytes.
    CrcFormat,
    /// The text does not hold exactly two non-empty segments.
    Data,
    /// A segment is not valid base64.
    Base64(FromBase64Error),
}

impl HedwigError {
    /// A one-line description of the error, for display.
    pub fn message(&self) -> (r: String)
        ensures
            *self is Crc ==> r@ == "CRC does not match"@,
            *self is CrcFormat ==> r@ == "CRC is not the correct size"@,
            *self is Data ==> r@ == "Expects two base64 blobs"@,
    {
        match self {
            HedwigError::Base64(err) => err.to_string(),
            HedwigError::Crc => String::from_str("CRC does not match"),
            HedwigError::CrcFormat => String::from_str("CRC is not the correct size"),
            HedwigError::Data => String::from_str("Expects two base64 blobs"),
        }
    }
}

impl From<FromBase64Error> for HedwigError {
    fn from(err: FromBase64Error) -> (r: HedwigError)
        ensures
            r == HedwigError::Base64(err),
    {
        HedwigError::Base64(err)
    }
}

impl vstd::std_specs::convert::FromSpecImpl<FromBase64Error> for HedwigError {
    open spec fn obeys_from_spec() -> bool {
        true
    }

    open spec fn from_spec(v: FromBase64Error) -> HedwigError {
        HedwigError::Base64(v)
    }
}

/// The outcome of checking an armored text, as a value.
pub enum Verdict {
    /// The text is valid; its data segment decodes to these bytes.
    Accepted(Seq<u8>),
    /// The text does not hold exactly two non-empty segments.
    Segments,
    /// A segment is not valid base64.
    Encoding,
    /// The checksum segment does not decode to three bytes.
    ChecksumSize,
    /// The data's CRC-24 differs from the claimed one.
    ChecksumMismatch,
}

/// The 24-bit value of three checksum bytes, most significant first.
pub open spec fn claimed_crc(c: Seq<u8>) -> u32 {
    ((c[0] as u32) << 16) | ((c[1] as u32) << 8) | (c[2] as u32)
}

/// The verdict on decoded data and decoded checksum bytes.
pub open spec fn checked(data: Seq<u8>, claimed: Seq<u8>) -> Verdict {
    if claimed.len() != 3 {
        Verdict::ChecksumSize
    } else if claimed_crc(claimed) != crc24(data) {
        Verdict::ChecksumMismatch
    } else {
        Verdict::Accepted(data)
    }
}

/// The verdict on an armored text.
pub open spec fn armor_verdict(s: Seq<char>) -> Verdict {
    let segs = segments(s);
    if segs.len() != 2 {
        Verdict::Segments
    } else {
        match (base64_decoded(segs[0]), base64_decoded(segs[1])) {
            (Some(data), Some(claimed)) => checked(data, claimed),
            _ => Verdict::Encoding,
        }
    }
}

/// The verdict that a result reports.
pub open spec fn verdict_of(r: Result<Vec<u8>, HedwigError>) -> Verdict {
    match r {
        Ok(v) => Verdict::Accepted(v@),
        Err(HedwigError::Data) => Verdict::Segments,
        Err(HedwigError::Base64(_)) => Verdict::Encoding,
        Err(HedwigError::CrcFormat) => Verdict::ChecksumSize,
        Err(HedwigError::Crc) => Verdict::ChecksumMismatch,
    }
}

/// The non-empty runs of characters between `=` delimiters, left to right.
///
/// Defined on the text one character at a time from the end: a `=` adds
/// nothing, a character that follows another non-`=` character extends the
/// last run, and any other character starts a new run.
pub open spec fn segments(s: Seq<char>) -> Seq<Seq<char>>
    decreases s.len(),
{
    if s.len() == 0 {
        Seq::empty()
    } else {
        let prev = segments(s.drop_last());
        let c = s.last();
        if c == '=' {
            prev
        } else if s.len() >= 2 && s[s.len() - 2] != '=' {
            prev.update(prev.len() - 1, prev.last().push(c))
        } else {
            prev.push(seq![c])
        }
    }
}

/// A text that ends in a character other than `=` ends inside a run.
proof fn lemma_segments_nonempty(s: Seq<char>)
    requires
        s.len() > 0,
        s.last() != '=',
    ensures
        segments(s).len() > 0,
    decreases s.len(),
{
    if s.len() >= 2 && s[s.len() - 2] != '=' {
        lemma_segments_nonempty(s.drop_last());
    }
}

/// Finds the runs of `s` between `=` delimiters, as character positions:
/// each pair is the start and the end (exclusive) of one run.
pub fn segment_spans(s: &str) -> (r: Vec<(usize, usize)>)
    ensures
        r@.len() == segments(s@).len(),
        forall|j: int| #![trigger r@[j]] 0 <= j < r@.len() ==> r@[j].0 <= r@[j].1 <= s@.len(),
        forall|j: int|
            0 <= j < r@.len() ==> s@.subrange(
                r@[j].0 as int,
                r@[j].1 as int,
            ) == #[trigger] segments(s@)[j],
{
    let n = s.unicode_len();
    let mut spans: Vec<(usize, usize)> = Vec::new();
    let mut in_run = false;
    let mut i: usize = 0;
    while i < n
        invariant
            n == s@.len(),
            i <= n,
            spans@.len() == segments(s@.take(i as int)).len(),
            forall|j: int|
                #![trigger spans@[j]]
                0 <= j < spans@.len() ==> spans@[j].0 <= spans@[j].1 <= i,
            forall|j: int|
                0 <= j < spans@.len() ==> s@.subrange(
                    spans@[j].0 as int,
                    spans@[j].1 as int,
                ) == #[trigger] segments(s@.take(i as int))[j],
            in_run == (i > 0 && s@[i - 1] != '='),
            in_run ==> spans@.len() > 0 && spans@.last().1 == i,
        decreases n - i,
    {
        let c = s.get_char(i);
        let ghost t = s@.take(i + 1);
        let ghost prev = segments(s@.take(i as int));
        assert(t.drop_last() =~= s@.take(i as int));
        assert(t.last() == c);
        if c == '=' {
            in_run = false;
            proof {
                assert forall|j: int| 0 <= j < spans@.len() implies s@.subrange(
                    spans@[j].0 as int,
                    spans@[j].1 as int,
                ) == #[trigger] segments(t)[j] by {
                    assert(s@.subrange(spans@[j].0 as int, spans@[j].1 as int) == prev[j]);
                }
            }
        } else if in_run {
            let last = spans.len() - 1;
            let start = spans[last].0;
            proof {
                assert(s@.take(i as int).last() == s@[i - 1]);
                lemma_segments_nonempty(s@.take(i as int));
                assert(t[t.len() - 2] == s@[i - 1]);
                assert(s@.subrange(start as int, i as int) == prev[last as int]);
            }
            let ghost before = spans@;
            spans.set(last, (start, i + 1));
            proof {
                assert forall|j: int|
                    #![trigger spans@[j]]
                    0 <= j < spans@.len() implies spans@[j].0 <= spans@[j].1 <= i + 1 by {
                    if j != last {
                        assert(spans@[j] == before[j]);
                        assert(before[j].0 <= before[j].1 <= i);
                    }
                }
                assert(s@.subrange(start as int, i + 1) =~= prev.last().push(c));
                assert(segments(t) == prev.update(prev.len() - 1, prev.last().push(c)));
                assert forall|j: int| 0 <= j < spans@.len() implies s@.subrange(
                    spans@[j].0 as int,
                    spans@[j].1 as int,
                ) == #[trigger] segments(t)[j] by {
                    if j != last {
                        assert(s@.subrange(spans@[j].0 as int, spans@[j].1 as int) == prev[j]);
                    }
                }
            }
            in_run = true;
        } else {
            let ghost before = spans@;
            spans.push((i, i + 1));
            proof {
                assert forall|j: int|
                    #![trigger spans@[j]]
                    0 <= j < spans@.len() implies spans@[j].0 <= spans@[j].1 <= i + 1 by {
                    if j < before.len() {
                        assert(spans@[j] == before[j]);
                        assert(before[j].0 <= before[j].1 <= i);
                    }
                }
                assert(i > 0 ==> t[t.len() - 2] == s@[i - 1]);
                assert(segments(t) == prev.push(seq![c]));
                assert(s@.subrange(i as int, i + 1) =~= seq![c]);
                assert forall|j: int| 0 <= j < spans@.len() implies s@.subrange(
                    spans@[j].0 as int,
                    spans@[j].1 as int,
                ) == #[trigger] segments(t)[j] by {
                    if j < prev.len() {
                        assert(s@.subrange(spans@[j].0 as int, spans@[j].1 as int) == prev[j]);
                    }
                }
            }
            in_run = true;
        }
        i += 1;
    }
    assert(s@.take(n as int) =~= s@);
    assert forall|j: int| 0 <= j < spans@.len() implies spans@[j].0 <= spans@[j].1 <= s@.len()
        && s@.subrange(spans@[j].0 as int, spans@[j].1 as int) == #[trigger] segments(s@)[j] by {
        assert(segments(s@.take(n as int))[j] == segments(s@)[j]);
    }
    spans
}

/// True when no character of `s` is `=`.
pub open spec fn no_delimiter(s: Seq<char>) -> bool {
    forall|k: int| 0 <= k < s.len() ==> s[k] != '='
}

/// True when every character of `s` is `=`.
pub open spec fn all_delimiters(s: Seq<char>) -> bool {
    forall|k: int| 0 <= k < s.len() ==> s[k] == '='
}

/// The three bytes of a 24-bit checksum, most significant first.
pub open spec fn crc_be_bytes(x: u32) -> Seq<u8> {
    seq![(x >> 16) as u8, (x >> 8) as u8, x as u8]
}

/// A text without delimiters is one run.
proof fn lemma_segments_single(a: Seq<char>)
    requires
        a.len() > 0,
        no_delimiter(a),
    ensures
        segments(a) == seq![a],
    decreases a.len(),
{
    assert(a[a.len() - 1] != '=');
    if a.len() == 1 {
        assert(a.drop_last() =~= Seq::<char>::empty());
        assert(segments(a.drop_last()) == Seq::<Seq<char>>::empty());
        assert(seq![a.last()] =~= a);
        assert(Seq::<Seq<char>>::empty().push(a) =~= seq![a]);
    } else {
        let p = a.drop_last();
        lemma_segments_single(p);
        assert(a[a.len() - 2] != '=');
        assert(p.push(a.last()) =~= a);
        assert(seq![p].update(0, p.push(a.last())) =~= seq![a]);
    }
}

/// Trailing delimiters add no run.
proof fn lemma_segments_trailing(x: Seq<char>, y: Seq<char>)
    requires
        all_delimiters(y),
    ensures
        segments(x + y) == segments(x),
    decreases y.len(),
{
    if y.len() > 0 {
        assert((x + y).drop_last() =~= x + y.drop_last());
        lemma_segments_trailing(x, y.drop_last());
    } else {
        assert(x + y =~= x);
    }
}

/// After a delimiter, the runs of what follows are counted on their own.
proof fn lemma_segments_concat(x: Seq<char>, y: Seq<char>)
    requires
        x.len() > 0,
        x.last() == '=',
    ensures
        segments(x + y) == segments(x) + segments(y),
    decreases y.len(),
{
    let xy = x + y;
    if y.len() == 0 {
        assert(xy =~= x);
        assert(segments(x) + segments(y) =~= segments(x));
    } else {
        assert(xy.drop_last() =~= x + y.drop_last());
        lemma_segments_concat(x, y.drop_last());
        let sx = segments(x);
        let sp = segments(y.drop_last());
        let c = y.last();
        assert(xy.last() == c);
        if c != '=' {
            assert(xy[xy.len() - 2] == if y.len() >= 2 { y[y.len() - 2] } else { x.last() });
            if y.len() >= 2 && y[y.len() - 2] != '=' {
                assert(y.drop_last().last() == y[y.len() - 2]);
                lemma_segments_nonempty(y.drop_last());
                assert((sx + sp).update((sx + sp).len() - 1, (sx + sp).last().push(c)) =~= sx
                    + sp.update(sp.len() - 1, sp.last().push(c)));
            } else {
                assert((sx + sp).push(seq![c]) =~= sx + sp.push(seq![c]));
            }
        }
    }
}

/// The runs of `a`, its padding, a delimiter-free `b` and trailing delimiters
/// are `a` and `b`.
pub proof fn lemma_two_segments(a: Seq<char>, p: Seq<char>, b: Seq<char>, q: Seq<char>)
    requires
        a.len() > 0,
        b.len() > 0,
        p.len() > 0,
        no_delimiter(a),
        no_delimiter(b),
        all_delimiters(p),
        all_delimiters(q),
    ensures
        segments(a + p + b + q) == seq![a, b],
{
    lemma_segments_trailing(a, p);
    lemma_segments_single(a);
    lemma_segments_trailing(b, q);
    lemma_segments_single(b);
    assert((a + p).last() == '=');
    lemma_segments_concat(a + p, b + q);
    assert(a + p + b + q =~= (a + p) + (b + q));
    assert(seq![a] + seq![b] =~= seq![a, b]);
}

/// The checksum bytes of a 24-bit value read back as that value.
pub proof fn lemma_crc_bytes_round_trip(x: u32)
    requires
        x <= CRC24_MASK,
    ensures
        crc_be_bytes(x).len() == 3,
        claimed_crc(crc_be_bytes(x)) == x,
{
    let b0 = (x >> 16) as u8;
    let b1 = (x >> 8) as u8;
    let b2 = x as u8;
    assert(((b0 as u32) << 16) | ((b1 as u32) << 8) | (b2 as u32) == x) by (bit_vector)
        requires
            x <= 0x00FF_FFFF,
            b0 == (x >> 16) as u8,
            b1 == (x >> 8) as u8,
            b2 == x as u8,
    ;
}

/// A text whose first run decodes to `d` and whose second run decodes to the
/// CRC-24 of `d`, in big-endian bytes, is accepted with the data `d`; base64
/// padding after the data run and delimiters after the checksum run are allowed.
pub proof fn lemma_round_trip(
    a: Seq<char>,
    p: Seq<char>,
    b: Seq<char>,
    q: Seq<char>,
    d: Seq<u8>,
)
    requires
        a.len() > 0,
        b.len() > 0,
        p.len() > 0,
        no_delimiter(a),
        no_delimiter(b),
        all_delimiters(p),
        all_delimiters(q),
        base64_decoded(a) == Some(d),
        base64_decoded(b) == Some(crc_be_bytes(crc24(d))),
    ensures
        armor_verdict(a + p + b + q) == Verdict::Accepted(d),
{
    lemma_two_segments(a, p, b, q);
    lemma_register_bounded(d);
    let r = crate::crc24::crc24_register(d);
    assert(r & 0x00FF_FFFF <= 0x00FF_FFFF) by (bit_vector);
    lemma_crc_bytes_round_trip(crc24(d));
}

/// Flipping one bit of the accepted data, while the checksum run stays as it
/// was, turns acceptance into a checksum mismatch.
pub proof fn lemma_bit_flip_rejected(s: Seq<char>, t: Seq<char>, d: Seq<u8>, i: int, k: u8)
    requires
        armor_verdict(s) == Verdict::Accepted(d),
        segments(t).len() == 2,
        segments(t)[1] == segments(s)[1],
        0 <= i < d.len(),
        k < 8,
        base64_decoded(segments(t)[0]) == Some(d.update(i, d[i] ^ (1u8 << k))),
    ensures
        armor_verdict(t) == Verdict::ChecksumMismatch,
{
    lemma_bit_flip_detected(d, i, k);
}

/// A checksum run that decodes to anything but three bytes is rejected for its
/// size, whatever the data.
pub proof fn lemma_checksum_size_rejected(s: Seq<char>, c: Seq<u8>)
    requires
        segments(s).len() == 2,
        base64_decoded(segments(s)[0]) is Some,
        base64_decoded(segments(s)[1]) == Some(c),
        c.len() != 3,
    ensures
        armor_verdict(s) == Verdict::ChecksumSize,
{
}

/// A text without exactly two runs is rejected for its structure.
pub proof fn lemma_segment_count_rejected(s: Seq<char>)
    requires
        segments(s).len() != 2,
    ensures
        armor_verdict(s) == Verdict::Segments,
{
}

/// Checks decoded data against decoded checksum bytes: the data comes back
/// when the checksum is three bytes whose big-endian value is the data's CRC-24.
pub fn verify_checksum(data: Vec<u8>, claimed: &Vec<u8>) -> (r: Result<Vec<u8>, HedwigError>)
    ensures
        verdict_of(r) == checked(data@, claimed@),
{
    if claimed.len() != 3 {
        return Err(HedwigError::CrcFormat);
    }
    let crc = ((claimed[0] as u32) << 16) | ((claimed[1] as u32) << 8) | (claimed[2] as u32);
    if crc != calc_crc(&data) {
        return Err(HedwigError::Crc);
    }
    Ok(data)
}

/// Decodes an armored trailer `<base64 data>=<base64 crc>` and returns the data
/// bytes, once their CRC-24 matches the claimed one.
pub fn read_armored(armored: String) -> (r: Result<Vec<u8>, HedwigError>)
    ensures
        verdict_of(r) == armor_verdict(armored@),
{
    let text = armored.as_str();
    let spans = segment_spans(text);
    if spans.len() != 2 {
        return Err(HedwigError::Data);
    }
    let data_str = text.substring_char(spans[0].0, spans[0].1);
    let crc_str = text.substring_char(spans[1].0, spans[1].1);
    let data_bytes = match decode_base64(data_str) {
        Ok(v) => v,
        Err(e) => return Err(HedwigError::from(e)),
    };
    let crc_bytes = match decode_base64(crc_str) {
        Ok(v) => v,
        Err(e) => return Err(HedwigError::from(e)),
    };
    verify_checksum(data_bytes, &crc_bytes)
}

/// Checks an armored public key; the key material itself is not interpreted.
pub fn read_pubkey(armored: String) -> (r: Result<(), HedwigError>)
    ensures
        r is Ok <==> armor_verdict(armored@) is Accepted,
{
    let data = read_armored(armored);
    match data {
        Ok(_) => Ok(()),
        Err(e) => Err(e),
    }
}

} // verus!

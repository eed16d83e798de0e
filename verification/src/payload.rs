use vstd::prelude::*;
use crate::errors::QsError;

verus! {

/// Mathematical model of one decoded wire frame: the reconstructed absolute
/// counter and one sample sequence per channel the frame carries.
pub ghost struct PayloadModel {
    pub counter: u64,
    pub channels: Seq<Seq<i16>>,
}

/// Number of header bytes in a wire frame: length (2), reserved (1),
/// channel-count/epoch (1), rolling counter (4).
pub const FRAME_HEADER_LEN: usize = 8;

/// Largest declarable frame length, and so the largest sample count one
/// frame can carry: `(65535 - 8) / 2`.
pub const MAX_SAMPLES_PER_FRAME: usize = 32763;

/// The 16-bit little-endian unsigned value of two bytes.
pub open spec fn le16(lo: u8, hi: u8) -> int {
    lo + 256 * hi
}

/// The 32-bit little-endian rolling counter at bytes 4..8 of a frame.
pub open spec fn spec_rolling(data: Seq<u8>) -> int {
    data[4] + 256 * data[5] + 65536 * data[6] + 16777216 * data[7]
}

/// A 16-bit signed sample from its two little-endian bytes.
pub open spec fn spec_sample(lo: u8, hi: u8) -> i16 {
    (le16(lo, hi) as u16) as i16
}

/// The channel count a frame declares: the high nibble of byte 3.
pub open spec fn spec_channel_count(data: Seq<u8>) -> int {
    (data[3] / 16) as int
}

/// The counter-overflow epoch a frame declares: the low nibble of byte 3.
pub open spec fn spec_epoch(data: Seq<u8>) -> int {
    (data[3] % 16) as int
}

/// Sample `j` of channel `c` in a frame of `ch` interleaved channels.
pub open spec fn spec_frame_sample(data: Seq<u8>, ch: int, c: int, j: int) -> i16 {
    spec_sample(data[8 + 2 * (j * ch + c)], data[8 + 2 * (j * ch + c) + 1])
}

/// What decoding a raw frame yields, for every byte sequence.
///
/// Validation order: the declared length must equal the actual length (a
/// buffer too short for a header can never match a whole frame), the channel
/// count must lie in 1..=8, the epoch must be below 64, and the sample bytes
/// must be an exact multiple of the per-sample stride. On success the
/// absolute counter is `epoch * 2^32 + rolling` and channel `c` holds the
/// samples at interleaved positions `c, c + ch, c + 2 * ch, ...`.
pub open spec fn decode(data: Seq<u8>) -> Result<PayloadModel, QsError> {
    if data.len() < 8 {
        Err(QsError::LengthMismatch)
    } else if le16(data[0], data[1]) != data.len() {
        Err(QsError::LengthMismatch)
    } else if spec_channel_count(data) < 1 || spec_channel_count(data) > 8 {
        Err(QsError::ChannelCountOutOfRange)
    } else if spec_epoch(data) >= 64 {
        Err(QsError::InvalidOverflow)
    } else if (data.len() - 8) % (spec_channel_count(data) * 2) != 0 {
        Err(QsError::IncompleteChannelFrame)
    } else {
        let ch = spec_channel_count(data);
        let n = (data.len() - 8) / (ch * 2);
        Ok(PayloadModel {
            counter: (spec_epoch(data) * 0x1_0000_0000 + spec_rolling(data)) as u64,
            channels: Seq::new(ch as nat, |c: int| Seq::new(n as nat, |j: int| spec_frame_sample(data, ch, c, j))),
        })
    }
}

impl PayloadModel {
    /// Structural invariant of a decoded frame: 1 to 8 channels, all of one
    /// length, the length bounded by the frame size and the counter bounded
    /// by the wire format's 4-bit epoch.
    pub open spec fn wf(self) -> bool {
        &&& 1 <= self.channels.len() <= 8
        &&& forall|c: int| 0 <= c < self.channels.len() ==> self.channels[c].len() == self.sample_count()
        &&& self.sample_count() <= MAX_SAMPLES_PER_FRAME
        &&& self.counter < 0x10_0000_0000
    }

    /// Samples per channel in this frame.
    pub open spec fn sample_count(self) -> nat {
        self.channels[0].len()
    }
}

/// Every successfully decoded frame satisfies the payload invariant.
pub proof fn lemma_decode_wf(data: Seq<u8>)
    requires
        decode(data) is Ok,
    ensures
        decode(data)->Ok_0.wf(),
        decode(data)->Ok_0.channels.len() == spec_channel_count(data),
{
    let ch = spec_channel_count(data);
    let n = (data.len() - 8) as int / (ch * 2);
    assert(data.len() <= 65535) by {
        assert(le16(data[0], data[1]) < 65536);
    }
    assert(ch * 2 >= 2);
    assert(n <= MAX_SAMPLES_PER_FRAME && n >= 0) by {
        vstd::arithmetic::div_mod::lemma_div_is_ordered((data.len() - 8) as int, 65527, ch * 2);
        vstd::arithmetic::div_mod::lemma_div_is_ordered_by_denominator(65527, 2, ch * 2);
        vstd::arithmetic::div_mod::lemma_div_pos_is_pos((data.len() - 8) as int, ch * 2);
    }
}

/// The byte at offset `b` of the wire frame a sender would emit for the
/// given epoch, rolling counter and channel contents.
pub open spec fn frame_byte_at(epoch: u8, rolling: u32, channels: Seq<Seq<i16>>, len: int, b: int) -> u8 {
    let ch = channels.len() as int;
    if b == 0 {
        (len % 256) as u8
    } else if b == 1 {
        (len / 256) as u8
    } else if b == 2 {
        0u8
    } else if b == 3 {
        (channels.len() * 16 + epoch) as u8
    } else if b == 4 {
        (rolling % 256) as u8
    } else if b == 5 {
        ((rolling / 256) % 256) as u8
    } else if b == 6 {
        ((rolling / 65536) % 256) as u8
    } else if b == 7 {
        ((rolling / 16777216) % 256) as u8
    } else {
        let s = (b - 8) / 2;
        let v = channels[s % ch][s / ch] as u16;
        if (b - 8) % 2 == 0 {
            (v % 256) as u8
        } else {
            (v / 256) as u8
        }
    }
}

/// The whole wire frame for the given epoch, rolling counter and channel
/// contents: header, then the samples interleaved round-robin, each field
/// little-endian.
pub open spec fn frame_bytes(epoch: u8, rolling: u32, channels: Seq<Seq<i16>>) -> Seq<u8> {
    let len = 8 + 2 * channels[0].len() * channels.len();
    Seq::new(len as nat, |b: int| frame_byte_at(epoch, rolling, channels, len as int, b))
}

/// A 32-bit value is the little-endian sum of its four base-256 digits.
proof fn lemma_u32_le_digits(r: u32)
    ensures
        r == r % 256 + 256 * ((r / 256) % 256) + 65536 * ((r / 65536) % 256) + 16777216 * ((r
            / 16777216) % 256),
        r / 16777216 < 256,
{
    vstd::arithmetic::div_mod::lemma_fundamental_div_mod(r as int, 256);
    vstd::arithmetic::div_mod::lemma_fundamental_div_mod(r as int / 256, 256);
    vstd::arithmetic::div_mod::lemma_fundamental_div_mod(r as int / 65536, 256);
    vstd::arithmetic::div_mod::lemma_div_denominator(r as int, 256, 256);
    vstd::arithmetic::div_mod::lemma_div_denominator(r as int, 65536, 256);
    assert((r as int / 256) / 256 == r as int / 65536);
    assert((r as int / 65536) / 256 == r as int / 16777216);
    assert(r as int / 16777216 < 256) by {
        vstd::arithmetic::div_mod::lemma_div_is_ordered(r as int, 0xFFFF_FFFF, 16777216);
    }
    assert((r as int / 16777216) % 256 == r as int / 16777216) by {
        vstd::arithmetic::div_mod::lemma_small_mod((r as int / 16777216) as nat, 256);
    }
}

/// Round trip of the wire format: the frame a sender emits for any
/// well-formed epoch, rolling counter and channel contents decodes to
/// exactly those channels, with the absolute counter `epoch * 2^32 +
/// rolling`.
pub proof fn lemma_frame_round_trip(epoch: u8, rolling: u32, channels: Seq<Seq<i16>>)
    requires
        1 <= channels.len() <= 8,
        epoch < 16,
        forall|c: int| 0 <= c < channels.len()
            ==> (#[trigger] channels[c]).len() == channels[0].len(),
        8 + 2 * channels[0].len() * channels.len() <= 65535,
    ensures
        decode(frame_bytes(epoch, rolling, channels)) is Ok,
        decode(frame_bytes(epoch, rolling, channels))->Ok_0.counter
            == epoch * 0x1_0000_0000 + rolling,
        decode(frame_bytes(epoch, rolling, channels))->Ok_0.channels == channels,
{
    let ch = channels.len() as int;
    let n = channels[0].len() as int;
    let len = 8 + 2 * n * ch;
    let data = frame_bytes(epoch, rolling, channels);
    assert(data.len() == len);
    assert(n * (2 * ch) == 2 * n * ch && 2 * n * ch >= 0) by (nonlinear_arith)
        requires
            n >= 0,
            ch >= 1,
    ;

    // Byte 0-1: the declared length reconstructs to the actual length.
    vstd::arithmetic::div_mod::lemma_fundamental_div_mod(len, 256);
    assert(len / 256 < 256 && len % 256 < 256);
    assert(le16(data[0], data[1]) == len);

    // Byte 3: channel count and epoch nibbles.
    assert(data[3] == (ch * 16 + epoch) as u8);
    assert(ch * 16 + epoch < 256);
    vstd::arithmetic::div_mod::lemma_fundamental_div_mod_converse(ch * 16 + epoch, 16, ch, epoch as int);
    assert(spec_channel_count(data) == ch);
    assert(spec_epoch(data) == epoch);

    // Bytes 4-7: the rolling counter reconstructs from its digits.
    lemma_u32_le_digits(rolling);
    assert(spec_rolling(data) == rolling);

    // The sample area is an exact multiple of the per-sample stride.
    vstd::arithmetic::div_mod::lemma_fundamental_div_mod_converse(2 * n * ch, 2 * ch, n, 0);
    assert((data.len() - 8) % (ch * 2) == 0);
    assert((data.len() - 8) / (ch * 2) == n);

    assert(decode(data) is Ok);
    let m = decode(data)->Ok_0;
    assert(m.counter == epoch * 0x1_0000_0000 + rolling);

    // Each decoded sample is the one the frame was built from.
    assert forall|c: int, j: int| 0 <= c < ch && 0 <= j < n
        implies spec_frame_sample(data, ch, c, j) == channels[c][j] by {
        let s = j * ch + c;
        assert(0 <= j * ch + c && (j * ch + c) * 2 + 2 <= 2 * n * ch) by (nonlinear_arith)
            requires
                0 <= j < n,
                0 <= c < ch,
        ;
        assert(0 <= s && s * 2 + 2 <= 2 * n * ch);
        let lo_b = 8 + 2 * s;
        let hi_b = lo_b + 1;
        vstd::arithmetic::div_mod::lemma_fundamental_div_mod_converse(2 * s, 2, s, 0);
        vstd::arithmetic::div_mod::lemma_fundamental_div_mod_converse(2 * s + 1, 2, s, 1);
        vstd::arithmetic::div_mod::lemma_fundamental_div_mod_converse(s, ch, j, c);
        let v = channels[c][j] as u16;
        assert(data[lo_b] == (v % 256) as u8);
        assert(data[hi_b] == (v / 256) as u8);
        vstd::arithmetic::div_mod::lemma_fundamental_div_mod(v as int, 256);
        assert(v / 256 < 256);
        assert(le16(data[lo_b], data[hi_b]) == v);
        assert(spec_sample(data[lo_b], data[hi_b]) == (v as i16));
        let x = channels[c][j];
        assert((x as u16) as i16 == x) by (bit_vector);
    }
    assert(m.channels =~~= channels);
}

/// One decoded wire frame: the absolute counter and the per-channel sample
/// columns, immutable once constructed.
pub struct Payload {
    pub counter: u64,
    pub channels: Vec<Vec<i16>>,
    pub active_channels: u8,
}

impl View for Payload {
    type V = PayloadModel;

    open spec fn view(&self) -> PayloadModel {
        PayloadModel {
            counter: self.counter,
            channels: self.channels@.map_values(|col: Vec<i16>| col@),
        }
    }
}

impl Payload {
    /// The payload invariant: the model is well formed and `active_channels`
    /// records how many channels the frame populated.
    pub open spec fn wf(self) -> bool {
        &&& self@.wf()
        &&& self.active_channels == self@.channels.len()
    }

    /// Decode a raw wire frame, validating its framing and reconstructing
    /// the absolute counter; the returned payload is exactly what `decode`
    /// states for these bytes, and any validation failure leaves its exact
    /// error.
    pub fn new(data: &[u8]) -> (r: Result<Payload, QsError>)
        ensures
            match r {
                Ok(p) => decode(data@) is Ok && p@ == decode(data@)->Ok_0 && p.wf(),
                Err(e) => decode(data@) is Err && e == decode(data@)->Err_0,
            },
    {
        let len = data.len();
        if len < 8 {
            return Err(QsError::LengthMismatch);
        }
        let declared: usize = data[0] as usize + 256 * (data[1] as usize);
        if declared != len {
            return Err(QsError::LengthMismatch);
        }
        let ch: usize = (data[3] / 16) as usize;
        let epoch: u8 = data[3] % 16;
        if ch < 1 || ch > 8 {
            return Err(QsError::ChannelCountOutOfRange);
        }
        if epoch >= 64 {
            return Err(QsError::InvalidOverflow);
        }
        let payload_bytes = len - 8;
        if payload_bytes % (ch * 2) != 0 {
            return Err(QsError::IncompleteChannelFrame);
        }
        let n = payload_bytes / (ch * 2);
        proof {
            vstd::arithmetic::div_mod::lemma_fundamental_div_mod(payload_bytes as int, (ch * 2) as int);
            assert(payload_bytes == (ch * 2) * n);
            assert((ch * 2) * n == n * (ch * 2) && 2 * n <= n * (ch * 2)) by (nonlinear_arith)
                requires
                    1 <= ch,
                    0 <= n,
            ;
            assert(payload_bytes <= 65527);
        }
        assert(payload_bytes == n * (ch * 2) && n <= MAX_SAMPLES_PER_FRAME);

        let rolling: u32 = data[4] as u32
            + 256 * (data[5] as u32)
            + 65536 * (data[6] as u32)
            + 16777216 * (data[7] as u32);
        let counter: u64 = (epoch as u64) * 0x1_0000_0000 + rolling as u64;

        let ghost model = decode(data@)->Ok_0;
        let mut channels: Vec<Vec<i16>> = Vec::new();
        let mut c: usize = 0;
        while c < ch
            invariant
                1 <= ch <= 8,
                c <= ch,
                payload_bytes == n * (ch * 2),
                payload_bytes <= 65527,
                data@.len() == 8 + payload_bytes,
                n <= MAX_SAMPLES_PER_FRAME,
                channels@.len() == c,
                forall|cc: int| 0 <= cc < c ==> channels@[cc]@
                    =~= Seq::new(n as nat, |j: int| spec_frame_sample(data@, ch as int, cc, j)),
            decreases ch - c,
        {
            let mut col: Vec<i16> = Vec::new();
            let mut j: usize = 0;
            while j < n
                invariant
                    1 <= ch <= 8,
                    c < ch,
                    j <= n,
                    payload_bytes == n * (ch * 2),
                    payload_bytes <= 65527,
                    data@.len() == 8 + payload_bytes,
                    n <= MAX_SAMPLES_PER_FRAME,
                    col@.len() == j,
                    forall|jj: int| 0 <= jj < j ==> col@[jj]
                        == spec_frame_sample(data@, ch as int, c as int, jj),
                decreases n - j,
            {
                assert(2 * (j * ch + c) + 2 <= n * (ch * 2)) by (nonlinear_arith)
                    requires
                        0 <= j < n,
                        0 <= c < ch,
                ;
                let off = 8 + 2 * (j * ch + c);
                let lo = data[off];
                let hi = data[off + 1];
                let v: u16 = lo as u16 + 256 * (hi as u16);
                col.push(#[verifier::truncate] (v as i16));
                j += 1;
            }
            channels.push(col);
            c += 1;
        }

        let p = Payload { counter, channels, active_channels: ch as u8 };
        proof {
            lemma_decode_wf(data@);
            assert(p@.channels =~~= model.channels);
        }
        Ok(p)
    }
}

} // verus!

//! The framed byte stream between an agent and its transport: frame
//! encoding and decoding, and the name of an agent's socket.

use vstd::prelude::*;
use vstd::string::StringExecFns;

verus! {

/// Offset and size of the channel tag in a frame header.
pub const META_CHANNEL_B: usize = 0;
pub const META_CHANNEL_SZ: usize = 4;
pub const META_CHANNEL_E: usize = 4;
/// Offset and size of the little-endian payload length.
pub const META_LENGTH_B: usize = 4;
pub const META_LENGTH_SZ: usize = 4;
pub const META_LENGTH_E: usize = 8;
/// Size of a frame header.
pub const META_SZ: usize = 8;

/// The character of a decimal digit.
pub open spec fn digit_char(d: nat) -> char {
    if d == 0 {
        '0'
    } else if d == 1 {
        '1'
    } else if d == 2 {
        '2'
    } else if d == 3 {
        '3'
    } else if d == 4 {
        '4'
    } else if d == 5 {
        '5'
    } else if d == 6 {
        '6'
    } else if d == 7 {
        '7'
    } else if d == 8 {
        '8'
    } else {
        '9'
    }
}

/// The `k` lowest decimal digits of `n`, most significant first.
pub open spec fn low_digits(n: nat, k: nat) -> Seq<char>
    decreases k,
{
    if k == 0 {
        Seq::empty()
    } else {
        low_digits(n / 10, (k - 1) as nat).push(digit_char(n % 10))
    }
}

/// Number of decimal digits of `n`.
pub open spec fn num_digits(n: nat) -> nat
    decreases n,
{
    if n < 10 {
        1
    } else {
        1 + num_digits(n / 10)
    }
}

/// `n` in decimal, padded with zeros to at least `width` digits.
pub open spec fn padded_decimal(n: nat, width: nat) -> Seq<char> {
    low_digits(n, if num_digits(n) > width { num_digits(n) } else { width })
}

/// The name of agent `id`'s socket: `socket_` and the id padded to six digits.
pub open spec fn socket_name_spec(id: u32) -> Seq<char> {
    seq!['s', 'o', 'c', 'k', 'e', 't', '_'] + padded_decimal(id as nat, 6)
}

proof fn lemma_num_digits_bound(n: nat)
    ensures
        1 <= num_digits(n) <= n + 1,
    decreases n,
{
    if n >= 10 {
        lemma_num_digits_bound(n / 10);
    }
}

fn digit_str(d: u32) -> (r: &'static str)
    requires
        d < 10,
    ensures
        r@ == seq![digit_char(d as nat)],
{
    proof {
        reveal_strlit("0");
        reveal_strlit("1");
        reveal_strlit("2");
        reveal_strlit("3");
        reveal_strlit("4");
        reveal_strlit("5");
        reveal_strlit("6");
        reveal_strlit("7");
        reveal_strlit("8");
        reveal_strlit("9");
    }
    if d == 0 {
        "0"
    } else if d == 1 {
        "1"
    } else if d == 2 {
        "2"
    } else if d == 3 {
        "3"
    } else if d == 4 {
        "4"
    } else if d == 5 {
        "5"
    } else if d == 6 {
        "6"
    } else if d == 7 {
        "7"
    } else if d == 8 {
        "8"
    } else {
        "9"
    }
}

/// The name of agent `id`'s socket.
pub fn get_socket_name(id: u32) -> (r: String)
    ensures
        r@ == socket_name_spec(id),
{
    let mut width: u64 = 1;
    let mut m: u32 = id;
    proof {
        lemma_num_digits_bound(id as nat);
    }
    while m >= 10
        invariant
            width >= 1,
            num_digits(id as nat) == width - 1 + num_digits(m as nat),
            num_digits(id as nat) <= id + 1,
        decreases m,
    {
        proof {
            lemma_num_digits_bound(m as nat);
        }
        m = m / 10;
        width += 1;
    }
    if width < 6 {
        width = 6;
    }
    let mut digs: Vec<u32> = Vec::new();
    let mut cur: u32 = id;
    let mut i: u64 = 0;
    while i < width
        invariant
            i <= width,
            digs@.len() == i,
            forall|j: int| 0 <= j < i ==> (#[trigger] digs@[j]) < 10,
            low_digits(id as nat, width as nat) == low_digits(cur as nat, (width - i) as nat) + Seq::new(
                i as nat,
                |j: int| digit_char(digs@[i - 1 - j] as nat),
            ),
        decreases width - i,
    {
        let ghost before = digs@;
        let ghost c0 = cur;
        digs.push(cur % 10);
        cur = cur / 10;
        i += 1;
        proof {
            assert(Seq::new(i as nat, |j: int| digit_char(digs@[i - 1 - j] as nat)) =~= seq![digit_char(
                (c0 % 10) as nat,
            )] + Seq::new((i - 1) as nat, |j: int| digit_char(before[i - 2 - j] as nat)));
        }
    }
    let mut s = String::from_str("socket_");
    proof {
        reveal_strlit("socket_");
    }
    let mut k: u64 = width;
    while k > 0
        invariant
            k <= width,
            digs@.len() == width,
            forall|j: int| 0 <= j < width ==> (#[trigger] digs@[j]) < 10,
            s@ == seq!['s', 'o', 'c', 'k', 'e', 't', '_'] + Seq::new(
                (width - k) as nat,
                |j: int| digit_char(digs@[width - 1 - j] as nat),
            ),
        decreases k,
    {
        k -= 1;
        let ghost before = s@;
        s.append(digit_str(digs[k as usize]));
        proof {
            assert(s@ =~= seq!['s', 'o', 'c', 'k', 'e', 't', '_'] + Seq::new(
                (width - k) as nat,
                |j: int| digit_char(digs@[width - 1 - j] as nat),
            ));
        }
    }
    proof {
        assert(low_digits(cur as nat, 0) =~= Seq::<char>::empty());
        assert(low_digits(id as nat, width as nat) =~= Seq::new(
            width as nat,
            |j: int| digit_char(digs@[width - 1 - j] as nat),
        ));
    }
    s
}

/// The little-endian `u32` in the four bytes at `i`.
pub open spec fn le_u32(b: Seq<u8>, i: int) -> nat {
    (b[i] + 256 * b[i + 1] + 65536 * b[i + 2] + 16777216 * b[i + 3]) as nat
}

/// The four little-endian bytes of `n`.
pub open spec fn le_bytes(n: nat) -> Seq<u8> {
    seq![(n % 256) as u8, ((n / 256) % 256) as u8, ((n / 65536) % 256) as u8, ((n / 16777216) % 256) as u8]
}

/// A frame: a four-byte channel tag and a payload.
pub struct Frame {
    pub channel: Vec<u8>,
    pub payload: Vec<u8>,
}

/// The frames at the front of a byte stream, and the bytes left over (an
/// incomplete frame, to be completed by later bytes).
pub open spec fn parse_frames(bytes: Seq<u8>) -> (Seq<(Seq<u8>, Seq<u8>)>, Seq<u8>)
    decreases bytes.len(),
{
    if bytes.len() < META_SZ {
        (Seq::empty(), bytes)
    } else if bytes.len() < META_SZ + le_u32(bytes, META_LENGTH_B as int) {
        (Seq::empty(), bytes)
    } else {
        let n = le_u32(bytes, META_LENGTH_B as int) as int;
        let rest = parse_frames(bytes.skip(META_SZ + n));
        (
            seq![(bytes.take(META_CHANNEL_SZ as int), bytes.subrange(META_SZ as int, META_SZ + n))]
                + rest.0,
            rest.1,
        )
    }
}

/// The bytes of one frame.
pub open spec fn frame_bytes(channel: Seq<u8>, payload: Seq<u8>) -> Seq<u8> {
    channel + le_bytes(payload.len()) + payload
}

proof fn lemma_le_round_trip(n: nat)
    requires
        n <= u32::MAX,
    ensures
        le_u32(le_bytes(n), 0) == n,
{
    let b = le_bytes(n);
    vstd::arithmetic::div_mod::lemma_fundamental_div_mod(n as int, 256);
    vstd::arithmetic::div_mod::lemma_fundamental_div_mod((n / 256) as int, 256);
    vstd::arithmetic::div_mod::lemma_fundamental_div_mod((n / 65536) as int, 256);
    vstd::arithmetic::div_mod::lemma_div_denominator(n as int, 256, 256);
    vstd::arithmetic::div_mod::lemma_div_denominator(n as int, 65536, 256);
    assert(n / 16777216 < 256) by {
        vstd::arithmetic::div_mod::lemma_div_is_ordered(n as int, 0xFFFF_FFFF, 16777216);
    }
    vstd::arithmetic::div_mod::lemma_small_mod((n / 16777216) as nat, 256);
}

/// Encoding then decoding gives back the frame, whatever follows it.
pub proof fn law_frame_round_trip(channel: Seq<u8>, payload: Seq<u8>, rest: Seq<u8>)
    requires
        channel.len() == META_CHANNEL_SZ,
        payload.len() <= u32::MAX,
    ensures
        parse_frames(frame_bytes(channel, payload) + rest) == (
            seq![(channel, payload)] + parse_frames(rest).0,
            parse_frames(rest).1,
        ),
{
    let bytes = frame_bytes(channel, payload) + rest;
    lemma_le_round_trip(payload.len());
    assert(le_u32(bytes, 4) == le_u32(le_bytes(payload.len()), 0));
    assert(bytes.skip(META_SZ + payload.len()) =~= rest);
    assert(bytes.take(4) =~= channel);
    assert(bytes.subrange(8, 8 + payload.len() as int) =~= payload);
}

/// The bytes that carry `data` on `channel`.
pub fn encode_frame(channel: &Vec<u8>, data: &Vec<u8>) -> (r: Vec<u8>)
    requires
        channel@.len() == META_CHANNEL_SZ,
        data@.len() <= u32::MAX,
    ensures
        r@ == frame_bytes(channel@, data@),
{
    let n = data.len() as u32;
    let mut r: Vec<u8> = Vec::new();
    let mut i: usize = 0;
    while i < channel.len()
        invariant
            i <= channel@.len(),
            r@ == channel@.take(i as int),
        decreases channel.len() - i,
    {
        r.push(channel[i]);
        i += 1;
        assert(r@ =~= channel@.take(i as int));
    }
    r.push((n % 256) as u8);
    r.push(((n / 256) % 256) as u8);
    r.push(((n / 65536) % 256) as u8);
    r.push(((n / 16777216) % 256) as u8);
    assert(r@ =~= channel@ + le_bytes(data@.len()));
    let ghost head = r@;
    let mut j: usize = 0;
    while j < data.len()
        invariant
            j <= data@.len(),
            r@ == head + data@.take(j as int),
        decreases data.len() - j,
    {
        r.push(data[j]);
        j += 1;
        assert(r@ =~= head + data@.take(j as int));
    }
    assert(data@.take(data@.len() as int) =~= data@);
    r
}

fn read_le_u32(b: &Vec<u8>, i: usize) -> (r: u64)
    requires
        i + 4 <= b@.len(),
    ensures
        r == le_u32(b@, i as int),
{
    let len = b.len();
    assert(i + 3 < len);
    let b0 = b[i] as u64;
    let b1 = b[i + 1] as u64;
    let b2 = b[i + 2] as u64;
    let b3 = b[i + 3] as u64;
    b0 + 256 * b1 + 65536 * b2 + 16777216 * b3
}

/// Decodes the frames that `cache` (the undecoded bytes of earlier reads)
/// followed by `buf` hold, leaving in `cache` the bytes of an incomplete
/// last frame.
pub fn pick_data(cache: &mut Vec<u8>, buf: &Vec<u8>) -> (r: Vec<Frame>)
    ensures
        r@.map_values(|f: Frame| (f.channel@, f.payload@)) == parse_frames(old(cache)@ + buf@).0,
        final(cache)@ == parse_frames(old(cache)@ + buf@).1,
{
    let mut bytes: Vec<u8> = Vec::new();
    std::mem::swap(&mut bytes, cache);
    let ghost c0 = bytes@;
    let mut j: usize = 0;
    while j < buf.len()
        invariant
            j <= buf@.len(),
            bytes@ == c0 + buf@.take(j as int),
        decreases buf.len() - j,
    {
        bytes.push(buf[j]);
        j += 1;
        assert(bytes@ =~= c0 + buf@.take(j as int));
    }
    assert(buf@.take(buf@.len() as int) =~= buf@);
    let ghost all = bytes@;
    let mut frames: Vec<Frame> = Vec::new();
    let mut pos: usize = 0;
    let mut done = false;
    assert(all.skip(0) =~= all);
    while !done
        invariant
            all == bytes@,
            pos <= all.len(),
            parse_frames(all).0 == frames@.map_values(|f: Frame| (f.channel@, f.payload@)) + (if done {
                Seq::empty()
            } else {
                parse_frames(all.skip(pos as int)).0
            }),
            parse_frames(all).1 == parse_frames(all.skip(pos as int)).1,
            done ==> parse_frames(all.skip(pos as int)).0.len() == 0 && parse_frames(all.skip(pos as int)).1
                == all.skip(pos as int),
        decreases all.len() - pos, if done { 0int } else { 1int },
    {
        let ghost s = all.skip(pos as int);
        if bytes.len() - pos < META_SZ {
            done = true;
        } else {
            let n64 = read_le_u32(&bytes, pos + META_LENGTH_B);
            proof {
                assert(le_u32(s, META_LENGTH_B as int) == le_u32(all, pos + META_LENGTH_B));
            }
            if ((bytes.len() - pos - META_SZ) as u64) < n64 {
                done = true;
            } else {
                let n = n64 as usize;
                let base = pos + META_SZ;
                let mut channel: Vec<u8> = Vec::new();
                let mut payload: Vec<u8> = Vec::new();
                let mut q: usize = 0;
                while q < META_CHANNEL_SZ
                    invariant
                        q <= META_CHANNEL_SZ,
                        pos + META_SZ <= bytes@.len(),
                        bytes@.len() == bytes.len(),
                        all == bytes@,
                        channel@ == all.subrange(pos as int, pos + q),
                    decreases META_CHANNEL_SZ - q,
                {
                    channel.push(bytes[pos + q]);
                    q += 1;
                    assert(channel@ =~= all.subrange(pos as int, pos + q));
                }
                let mut q: usize = 0;
                while q < n
                    invariant
                        q <= n,
                        base == pos + META_SZ,
                        base + n <= bytes@.len(),
                        bytes@.len() == bytes.len(),
                        all == bytes@,
                        payload@ == all.subrange(pos + META_SZ, pos + META_SZ + q),
                    decreases n - q,
                {
                    payload.push(bytes[base + q]);
                    q += 1;
                    assert(payload@ =~= all.subrange(pos + META_SZ, pos + META_SZ + q));
                }
                let ghost fs0 = frames@;
                frames.push(Frame { channel, payload });
                proof {
                    assert(s.take(4) =~= channel@);
                    assert(s.subrange(8, 8 + n) =~= payload@);
                    assert(s.skip(8 + n) =~= all.skip(pos + 8 + n));
                    assert(frames@.map_values(|f: Frame| (f.channel@, f.payload@)) =~= fs0.map_values(
                        |f: Frame| (f.channel@, f.payload@),
                    ).push((channel@, payload@)));
                }
                pos = pos + META_SZ + n;
            }
        }
    }
    let mut left: Vec<u8> = Vec::new();
    let mut q: usize = pos;
    while q < bytes.len()
        invariant
            pos <= q <= bytes@.len(),
            left@ == bytes@.subrange(pos as int, q as int),
        decreases bytes.len() - q,
    {
        left.push(bytes[q]);
        q += 1;
        assert(left@ =~= bytes@.subrange(pos as int, q as int));
    }
    assert(left@ =~= all.skip(pos as int));
    *cache = left;
    assert(frames@.map_values(|f: Frame| (f.channel@, f.payload@)) + Seq::empty() =~= frames@.map_values(
        |f: Frame| (f.channel@, f.payload@),
    ));
    frames
}

} // verus!

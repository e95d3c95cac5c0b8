//! The i.MX hardware identity: four OTP fuse words.
use vstd::prelude::*;
use vstd::utf8::*;
use crate::signer::env::pow16;
use crate::text::{
    chars_eq_str, chars_of, decode_chars, hex_char, hex_fixed, lemma_hex_fixed_len, push_chars,
    push_hex_fixed, string_of, sub_chars, trim, trim_chars,
};

verus! {

/// The fuse words that identify one device.
#[derive(Copy, Clone, Debug, PartialEq, Eq, Structural)]
pub struct Hwid {
    /// fuse 0x01
    pub cfg0: u32,
    /// fuse 0x02
    pub cfg1: u32,
    /// fuse 0x22
    pub mac0: u32,
    /// fuse 0x23
    pub mac1: u32,
}

/// Number of OTP words read from the fuse bank.
pub const OCOTP_MAX: usize = 1024;

/// Little-endian 32-bit word made of four bytes.
pub open spec fn le_word(b0: u8, b1: u8, b2: u8, b3: u8) -> u32 {
    (b0 as int + b1 as int * 0x100 + b2 as int * 0x1_0000 + b3 as int * 0x100_0000) as u32
}

/// The OTP words of a fuse dump: little-endian words from the complete 4-byte groups,
/// then zeros up to `OCOTP_MAX` words.
pub open spec fn ocotp_words_of(bytes: Seq<u8>) -> Seq<u32> {
    Seq::new(
        OCOTP_MAX as nat,
        |i: int|
            if i < bytes.len() / 4 {
                le_word(bytes[4 * i], bytes[4 * i + 1], bytes[4 * i + 2], bytes[4 * i + 3])
            } else {
                0
            },
    )
}

/// Turns the bytes read from the OTP device into its words.
pub fn ocotp_words(bytes: &[u8]) -> (r: Result<Vec<u32>, &'static str>)
    requires
        bytes@.len() <= OCOTP_MAX * 4,
    ensures
        bytes@.len() == 0 ==> r == Err::<Vec<u32>, &str>("failed to read fd"),
        bytes@.len() > 0 ==> (r matches Ok(w) && w@ == ocotp_words_of(bytes@)),
{
    let n = bytes.len();
    if n == 0 {
        return Err("failed to read fd");
    }
    let nwords = n / 4;
    let mut words: Vec<u32> = Vec::new();
    let mut i: usize = 0;
    while i < OCOTP_MAX
        invariant
            n == bytes@.len(),
            n <= OCOTP_MAX * 4,
            nwords == n / 4,
            i <= OCOTP_MAX,
            words@ == ocotp_words_of(bytes@).take(i as int),
        decreases OCOTP_MAX - i,
    {
        let w: u32 = if i < nwords {
            let b0 = bytes[i * 4] as u32;
            let b1 = bytes[i * 4 + 1] as u32;
            let b2 = bytes[i * 4 + 2] as u32;
            let b3 = bytes[i * 4 + 3] as u32;
            let w = b0 | (b1 << 8u32) | (b2 << 16u32) | (b3 << 24u32);
            assert(w == b0 + b1 * 0x100 + b2 * 0x1_0000 + b3 * 0x100_0000) by (bit_vector)
                requires
                    b0 < 256,
                    b1 < 256,
                    b2 < 256,
                    b3 < 256,
                    w == b0 | (b1 << 8u32) | (b2 << 16u32) | (b3 << 24u32),
            ;
            w
        } else {
            0
        };
        words.push(w);
        assert(words@ =~= ocotp_words_of(bytes@).take(i + 1));
        i = i + 1;
    }
    assert(words@ =~= ocotp_words_of(bytes@));
    Ok(words)
}

/// Picks the identity words out of the OTP words.
pub fn parse_hwid_from_ocotp(ocotp: &[u32]) -> (h: Hwid)
    requires
        ocotp@.len() > 0x23,
    ensures
        h == (Hwid { cfg0: ocotp@[0x01], cfg1: ocotp@[0x02], mac0: ocotp@[0x22], mac1: ocotp@[0x23] }),
{
    Hwid { cfg0: ocotp[0x01], cfg1: ocotp[0x02], mac0: ocotp[0x22], mac1: ocotp[0x23] }
}

/// Hexadecimal digit value of an ASCII byte (either case).
pub open spec fn hex_byte_value(c: u8) -> Option<int> {
    if 0x30 <= c <= 0x39 {
        Some(c - 0x30)
    } else if 0x61 <= c <= 0x66 {
        Some(c - 0x61 + 10)
    } else if 0x41 <= c <= 0x46 {
        Some(c - 0x41 + 10)
    } else {
        None
    }
}

pub open spec fn all_hex(s: Seq<u8>) -> bool {
    forall|i: int| 0 <= i < s.len() ==> (#[trigger] hex_byte_value(s[i])) is Some
}

pub open spec fn hex_digits_value(s: Seq<u8>) -> int
    decreases s.len(),
{
    if s.len() == 0 {
        0
    } else {
        hex_digits_value(s.drop_last()) * 16 + hex_byte_value(s.last())->0
    }
}

/// `u32::from_str_radix(_, 16)` on the text with these bytes: an optional `+`, at least
/// one hexadecimal digit, and a value that fits.
pub open spec fn parse_hex_u32(s: Seq<u8>) -> Option<u32> {
    let d = if s.len() > 0 && s[0] == 0x2b {
        s.drop_first()
    } else {
        s
    };
    if d.len() > 0 && all_hex(d) && hex_digits_value(d) <= u32::MAX {
        Some(hex_digits_value(d) as u32)
    } else {
        None
    }
}

proof fn lemma_hex_digits_mono(s: Seq<u8>, i: int)
    requires
        all_hex(s),
        0 <= i <= s.len(),
    ensures
        hex_digits_value(s.take(i)) <= hex_digits_value(s),
        hex_digits_value(s.take(i)) >= 0,
    decreases s.len() - i,
{
    if i < s.len() {
        lemma_hex_digits_mono(s, i + 1);
        assert(s.take(i + 1).drop_last() =~= s.take(i));
    } else {
        assert(s.take(i) =~= s);
    }
    lemma_hex_digits_nonneg(s.take(i));
}

proof fn lemma_hex_digits_nonneg(s: Seq<u8>)
    ensures
        all_hex(s) ==> hex_digits_value(s) >= 0,
    decreases s.len(),
{
    if s.len() > 0 {
        lemma_hex_digits_nonneg(s.drop_last());
        assert(all_hex(s) ==> all_hex(s.drop_last())) by {
            if all_hex(s) {
                assert forall|i: int| 0 <= i < s.drop_last().len() implies (#[trigger] hex_byte_value(
                    s.drop_last()[i],
                )) is Some by {
                    assert(s.drop_last()[i] == s[i]);
                }
            }
        }
    }
}

fn hex_byte_value_exec(c: u8) -> (r: Option<u64>)
    ensures
        r matches Some(v) ==> hex_byte_value(c) == Some(v as int),
        r is None ==> hex_byte_value(c) is None,
{
    if 0x30 <= c && c <= 0x39 {
        Some((c - 0x30) as u64)
    } else if 0x61 <= c && c <= 0x66 {
        Some((c - 0x61 + 10) as u64)
    } else if 0x41 <= c && c <= 0x46 {
        Some((c - 0x41 + 10) as u64)
    } else {
        None
    }
}

/// `u32::from_str_radix(s[lo..hi], 16)` on bytes.
pub fn parse_hex_u32_exec(s: &[u8], lo: usize, hi: usize) -> (r: Option<u32>)
    requires
        lo <= hi <= s@.len(),
    ensures
        r == parse_hex_u32(s@.subrange(lo as int, hi as int)),
{
    let ghost t = s@.subrange(lo as int, hi as int);
    let start: usize = if lo < hi && s[lo] == 0x2b {
        lo + 1
    } else {
        lo
    };
    let ghost d = s@.subrange(start as int, hi as int);
    assert(lo < hi ==> t[0] == s@[lo as int]);
    assert(start == lo + 1 ==> d =~= t.drop_first());
    assert(start == lo ==> d =~= t);
    if start == hi {
        return None;
    }
    let mut acc: u64 = 0;
    let mut i = start;
    while i < hi
        invariant
            start <= i <= hi,
            hi <= s@.len(),
            d == s@.subrange(start as int, hi as int),
            t == s@.subrange(lo as int, hi as int),
            d == (if t.len() > 0 && t[0] == 0x2b {
                t.drop_first()
            } else {
                t
            }),
            all_hex(d.take(i - start)),
            acc == hex_digits_value(d.take(i - start)),
            acc <= u32::MAX,
        decreases hi - i,
    {
        assert(d[i - start] == s@[i as int]);
        let v = match hex_byte_value_exec(s[i]) {
            Some(v) => v,
            None => {
                assert(hex_byte_value(d[i - start]) is None);
                return None;
            },
        };
        assert(d.take(i - start + 1).drop_last() =~= d.take(i - start));
        assert(d.take(i - start + 1).last() == d[i - start]);
        assert(all_hex(d.take(i - start + 1))) by {
            assert forall|k: int| 0 <= k < d.take(i - start + 1).len() implies (#[trigger] hex_byte_value(
                d.take(i - start + 1)[k],
            )) is Some by {
                if k < i - start {
                    assert(d.take(i - start + 1)[k] == d.take(i - start)[k]);
                }
            }
        }
        let next = acc * 16 + v;
        if next > 0xffff_ffff {
            proof {
                if all_hex(d) {
                    lemma_hex_digits_mono(d, i - start + 1);
                }
            }
            return None;
        }
        acc = next;
        i = i + 1;
    }
    assert(d.take(hi - start) =~= d);
    Some(acc as u32)
}

/// The bytes of `s` with every `-` removed.
pub open spec fn drop_dashes(s: Seq<u8>) -> Seq<u8>
    decreases s.len(),
{
    if s.len() == 0 {
        seq![]
    } else if s.last() == 0x2d {
        drop_dashes(s.drop_last())
    } else {
        drop_dashes(s.drop_last()).push(s.last())
    }
}

/// Whether `b` is a UTF-8 continuation byte.
pub open spec fn is_cont(b: u8) -> bool {
    0x80 <= b <= 0xbf
}

/// The inputs on which reading a hardware id string does not fault: a 35-byte text must
/// keep exactly 32 bytes once its dashes are gone, split into four 8-byte groups at
/// character boundaries.
pub open spec fn hwid_text_defined(s: Seq<u8>) -> bool {
    s.len() == 35 ==> {
        let raw = drop_dashes(s);
        &&& raw.len() == 32
        &&& !is_cont(raw[8])
        &&& !is_cont(raw[16])
        &&& !is_cont(raw[24])
    }
}

/// The identity spelled by a 35-byte hardware id text, when its four groups are valid.
pub open spec fn hwid_of_text(s: Seq<u8>) -> Option<Hwid> {
    let raw = drop_dashes(s);
    match (
        parse_hex_u32(raw.subrange(0, 8)),
        parse_hex_u32(raw.subrange(8, 16)),
        parse_hex_u32(raw.subrange(16, 24)),
        parse_hex_u32(raw.subrange(24, 32)),
    ) {
        (Some(a), Some(b), Some(c), Some(d)) => Some(Hwid { cfg0: a, cfg1: b, mac0: c, mac1: d }),
        _ => None,
    }
}

/// The text form `cccccccc-cccccccc-mmmmmmmm-mmmmmmmm` (lowercase, zero padded).
pub open spec fn hwid_chars(h: Hwid) -> Seq<char> {
    hex_fixed(h.cfg0 as nat, 8) + seq!['-'] + hex_fixed(h.cfg1 as nat, 8) + seq!['-'] + hex_fixed(
        h.mac0 as nat,
        8,
    ) + seq!['-'] + hex_fixed(h.mac1 as nat, 8)
}

impl Hwid {
    /// Reads a hardware id string such as `6920116d-473649d7-38780e11-66c50a99`.
    pub fn try_from(s: &str) -> (r: Result<Hwid, &'static str>)
        requires
            hwid_text_defined(encode_utf8(s@)),
        ensures
            encode_utf8(s@).len() != 35 ==> r == Err::<Hwid, &str>(
                "hwid should be exactly 35 chars",
            ),
            encode_utf8(s@).len() == 35 ==> match hwid_of_text(encode_utf8(s@)) {
                Some(h) => r == Ok::<Hwid, &str>(h),
                None => r == Err::<Hwid, &str>("failed to decode hwid string"),
            },
    {
        let bytes = s.as_bytes();
        if bytes.len() != 35 {
            return Err("hwid should be exactly 35 chars");
        }
        let mut raw: Vec<u8> = Vec::new();
        let mut i: usize = 0;
        while i < bytes.len()
            invariant
                i <= bytes@.len(),
                raw@ == drop_dashes(bytes@.take(i as int)),
            decreases bytes@.len() - i,
        {
            assert(bytes@.take(i + 1).drop_last() =~= bytes@.take(i as int));
            if bytes[i] != 0x2d {
                raw.push(bytes[i]);
            }
            i = i + 1;
        }
        assert(bytes@.take(bytes@.len() as int) =~= bytes@);
        let cfg0 = parse_hex_u32_exec(raw.as_slice(), 0, 8);
        let cfg1 = parse_hex_u32_exec(raw.as_slice(), 8, 16);
        let mac0 = parse_hex_u32_exec(raw.as_slice(), 16, 24);
        let mac1 = parse_hex_u32_exec(raw.as_slice(), 24, 32);
        match (cfg0, cfg1, mac0, mac1) {
            (Some(cfg0), Some(cfg1), Some(mac0), Some(mac1)) => Ok(Hwid { cfg0, cfg1, mac0, mac1 }),
            _ => Err("failed to decode hwid string"),
        }
    }

    /// The text form of the identity (`{:08x}-{:08x}-{:08x}-{:08x}`).
    pub fn to_hex_string(&self) -> (r: String)
        ensures
            r@ == hwid_chars(*self),
    {
        let mut v: Vec<char> = Vec::new();
        push_hex_fixed(&mut v, self.cfg0 as u64, 8);
        v.push('-');
        push_hex_fixed(&mut v, self.cfg1 as u64, 8);
        v.push('-');
        push_hex_fixed(&mut v, self.mac0 as u64, 8);
        v.push('-');
        push_hex_fixed(&mut v, self.mac1 as u64, 8);
        assert(v@ =~= hwid_chars(*self));
        string_of(v.as_slice())
    }
}

/// The bytes of an ASCII text.
pub open spec fn ascii_bytes(cs: Seq<char>) -> Seq<u8> {
    Seq::new(cs.len(), |i: int| (cs[i] as u32) as u8)
}

proof fn lemma_encode_ascii(cs: Seq<char>)
    requires
        forall|k: int| 0 <= k < cs.len() ==> (#[trigger] cs[k] as u32) < 0x80,
    ensures
        encode_utf8(cs) == ascii_bytes(cs),
    decreases cs.len(),
{
    if cs.len() > 0 {
        let rest = cs.drop_first();
        assert forall|k: int| 0 <= k < rest.len() implies (#[trigger] rest[k] as u32) < 0x80 by {
            assert(rest[k] == cs[k + 1]);
        }
        lemma_encode_ascii(rest);
        let v = cs[0] as u32;
        assert(v < 0x80);
        assert(v & 0x7f == v) by (bit_vector)
            requires
                v < 0x80,
        ;
        assert(encode_utf8(cs) =~= ascii_bytes(cs));
    }
}

proof fn lemma_pow16_pos(n: nat)
    ensures
        pow16(n) > 0,
    decreases n,
{
    if n > 0 {
        lemma_pow16_pos((n - 1) as nat);
    }
}

/// The digits of `hex_fixed` are ASCII hexadecimal digits whose value is `v` modulo `16^w`.
proof fn lemma_hex_fixed_digits(v: nat, w: nat)
    ensures
        forall|k: int|
            0 <= k < hex_fixed(v, w).len() ==> {
                let u = #[trigger] hex_fixed(v, w)[k] as u32;
                (0x30 <= u <= 0x39 || 0x61 <= u <= 0x66)
            },
        all_hex(ascii_bytes(hex_fixed(v, w))),
        hex_digits_value(ascii_bytes(hex_fixed(v, w))) == v % pow16(w),
    decreases w,
{
    lemma_hex_fixed_len(v, w);
    if w == 0 {
        assert(ascii_bytes(hex_fixed(v, w)) =~= Seq::<u8>::empty());
    } else {
        let pre = hex_fixed(v / 16, (w - 1) as nat);
        lemma_hex_fixed_digits(v / 16, (w - 1) as nat);
        let d = (v % 16) as int;
        let c = hex_char(d);
        let u = c as u32;
        assert(0x30 <= u <= 0x39 || 0x61 <= u <= 0x66);
        assert(hex_byte_value(u as u8) == Some(d));
        let hf = hex_fixed(v, w);
        assert(hf == pre.push(c));
        let bs = ascii_bytes(hf);
        assert(bs.drop_last() =~= ascii_bytes(pre));
        assert(bs.last() == u as u8);
        assert forall|k: int| 0 <= k < hf.len() implies {
            let u = #[trigger] hf[k] as u32;
            (0x30 <= u <= 0x39 || 0x61 <= u <= 0x66)
        } by {
            if k < pre.len() {
                assert(hf[k] == pre[k]);
            }
        }
        assert forall|i: int| 0 <= i < bs.len() implies (#[trigger] hex_byte_value(bs[i])) is Some by {
            if i < bs.len() - 1 {
                assert(bs[i] == ascii_bytes(pre)[i]);
            }
        }
        lemma_pow16_pos((w - 1) as nat);
        vstd::arithmetic::div_mod::lemma_breakdown(v as int, 16, pow16((w - 1) as nat) as int);
        assert(pow16(w) == 16 * pow16((w - 1) as nat));
    }
}

proof fn lemma_drop_dashes_concat(a: Seq<u8>, b: Seq<u8>)
    ensures
        drop_dashes(a + b) == drop_dashes(a) + drop_dashes(b),
    decreases b.len(),
{
    if b.len() == 0 {
        assert(a + b =~= a);
        assert(drop_dashes(a) + drop_dashes(b) =~= drop_dashes(a));
    } else {
        lemma_drop_dashes_concat(a, b.drop_last());
        assert((a + b).drop_last() =~= a + b.drop_last());
        if b.last() == 0x2d {
        } else {
            assert(drop_dashes(a + b) =~= drop_dashes(a) + drop_dashes(b));
        }
    }
}

proof fn lemma_drop_dashes_none(a: Seq<u8>)
    requires
        forall|k: int| 0 <= k < a.len() ==> a[k] != 0x2d,
    ensures
        drop_dashes(a) == a,
    decreases a.len(),
{
    if a.len() > 0 {
        lemma_drop_dashes_none(a.drop_last());
        assert(a.drop_last().push(a.last()) =~= a);
    }
}

/// A group of eight hexadecimal digits written for `v` reads back as `v`.
proof fn lemma_hex_group(v: u32)
    ensures
        ascii_bytes(hex_fixed(v as nat, 8)).len() == 8,
        forall|k: int| 0 <= k < 8 ==> (#[trigger] ascii_bytes(hex_fixed(v as nat, 8))[k]) < 0x80
            && ascii_bytes(hex_fixed(v as nat, 8))[k] != 0x2d,
        parse_hex_u32(ascii_bytes(hex_fixed(v as nat, 8))) == Some(v),
{
    lemma_hex_fixed_len(v as nat, 8);
    lemma_hex_fixed_digits(v as nat, 8);
    let hf = hex_fixed(v as nat, 8);
    let bs = ascii_bytes(hf);
    assert forall|k: int| 0 <= k < 8 implies (#[trigger] bs[k]) < 0x80 && bs[k] != 0x2d by {
        let u = hf[k] as u32;
        assert(0x30 <= u <= 0x39 || 0x61 <= u <= 0x66);
    }
    assert(bs[0] != 0x2b) by {
        let u = hf[0] as u32;
        assert(0x30 <= u <= 0x39 || 0x61 <= u <= 0x66);
    }
    assert(pow16(8) == 0x1_0000_0000) by {
        reveal_with_fuel(pow16, 9);
    }
}

/// Reading back the text form of an identity gives the identity: the text is 35 bytes,
/// reading it cannot fault, and it spells `h`.
pub proof fn lemma_hwid_text_roundtrip(h: Hwid)
    ensures
        encode_utf8(hwid_chars(h)).len() == 35,
        hwid_text_defined(encode_utf8(hwid_chars(h))),
        hwid_of_text(encode_utf8(hwid_chars(h))) == Some(h),
{
    let g0 = hex_fixed(h.cfg0 as nat, 8);
    let g1 = hex_fixed(h.cfg1 as nat, 8);
    let g2 = hex_fixed(h.mac0 as nat, 8);
    let g3 = hex_fixed(h.mac1 as nat, 8);
    lemma_hex_group(h.cfg0);
    lemma_hex_group(h.cfg1);
    lemma_hex_group(h.mac0);
    lemma_hex_group(h.mac1);
    lemma_hex_fixed_digits(h.cfg0 as nat, 8);
    lemma_hex_fixed_digits(h.cfg1 as nat, 8);
    lemma_hex_fixed_digits(h.mac0 as nat, 8);
    lemma_hex_fixed_digits(h.mac1 as nat, 8);
    let cs = hwid_chars(h);
    assert(cs.len() == 35);
    assert forall|k: int| 0 <= k < cs.len() implies (#[trigger] cs[k] as u32) < 0x80 by {
        if k < 8 {
            assert(cs[k] == g0[k]);
        } else if 8 < k < 17 {
            assert(cs[k] == g1[k - 9]);
        } else if 17 < k < 26 {
            assert(cs[k] == g2[k - 18]);
        } else if 26 < k {
            assert(cs[k] == g3[k - 27]);
        }
    }
    lemma_encode_ascii(cs);
    let b0 = ascii_bytes(g0);
    let b1 = ascii_bytes(g1);
    let b2 = ascii_bytes(g2);
    let b3 = ascii_bytes(g3);
    let dash: Seq<u8> = seq![0x2d];
    let bytes = encode_utf8(cs);
    assert(bytes =~= b0 + dash + b1 + dash + b2 + dash + b3);
    lemma_drop_dashes_none(b0);
    lemma_drop_dashes_none(b1);
    lemma_drop_dashes_none(b2);
    lemma_drop_dashes_none(b3);
    assert(drop_dashes(dash) =~= Seq::<u8>::empty()) by {
        assert(dash.drop_last() =~= Seq::<u8>::empty());
        assert(dash.last() == 0x2d);
        assert(drop_dashes(Seq::<u8>::empty()) =~= Seq::<u8>::empty());
    }
    lemma_drop_dashes_concat(b0 + dash + b1 + dash + b2 + dash, b3);
    lemma_drop_dashes_concat(b0 + dash + b1 + dash + b2, dash);
    lemma_drop_dashes_concat(b0 + dash + b1 + dash, b2);
    lemma_drop_dashes_concat(b0 + dash + b1, dash);
    lemma_drop_dashes_concat(b0 + dash, b1);
    lemma_drop_dashes_concat(b0, dash);
    let raw = drop_dashes(bytes);
    assert(raw =~= b0 + b1 + b2 + b3);
    assert(raw.subrange(0, 8) =~= b0);
    assert(raw.subrange(8, 16) =~= b1);
    assert(raw.subrange(16, 24) =~= b2);
    assert(raw.subrange(24, 32) =~= b3);
    assert(raw[8] == b1[0] && raw[16] == b2[0] && raw[24] == b3[0]);
}

/// Most bytes read from the OTP device.
pub const OCOTP_READ_MAX: usize = 4096;

/// The identity in a fuse dump (the bytes read from the OTP device).
pub fn read_hwid(ocotp_bytes: &[u8]) -> (r: Result<Hwid, &'static str>)
    requires
        ocotp_bytes@.len() <= OCOTP_READ_MAX,
    ensures
        ocotp_bytes@.len() == 0 ==> r == Err::<Hwid, &'static str>("failed to read fd"),
        ocotp_bytes@.len() > 0 ==> r == Ok::<Hwid, &'static str>(
            Hwid {
                cfg0: ocotp_words_of(ocotp_bytes@)[0x01],
                cfg1: ocotp_words_of(ocotp_bytes@)[0x02],
                mac0: ocotp_words_of(ocotp_bytes@)[0x22],
                mac1: ocotp_words_of(ocotp_bytes@)[0x23],
            },
        ),
{
    let words = match ocotp_words(ocotp_bytes) {
        Ok(w) => w,
        Err(e) => {
            return Err(e);
        },
    };
    Ok(parse_hwid_from_ocotp(words.as_slice()))
}

/// What reading one legacy fuse file (`0x...` text) gives.
pub open spec fn otp_word(bytes: Seq<u8>) -> Result<u32, &'static str> {
    if bytes.len() == 0 {
        Err("failed to read fd to check hwid")
    } else if !valid_utf8(bytes) {
        Err("failed to convert hex data")
    } else {
        let t = trim(decode_utf8(bytes));
        let n = if t.len() >= 2 && t[0] == '0' && t[1] == 'x' {
            t.skip(2)
        } else {
            t
        };
        match parse_hex_u32(encode_utf8(n)) {
            Some(v) => Ok(v),
            None => Err("failed to parse hex data"),
        }
    }
}

/// Reads one legacy fuse file's text: a hexadecimal word, `0x` optional, surrounding
/// whitespace ignored.
pub fn parse_otp_word(bytes: &[u8]) -> (r: Result<u32, &'static str>)
    ensures
        r == otp_word(bytes@),
{
    if bytes.len() == 0 {
        return Err("failed to read fd to check hwid");
    }
    let cs = match decode_chars(bytes) {
        Some(c) => c,
        None => {
            return Err("failed to convert hex data");
        },
    };
    let t = trim_chars(cs.as_slice());
    let n = if t.len() >= 2 && t[0] == '0' && t[1] == 'x' {
        let v = sub_chars(t.as_slice(), 2, t.len());
        assert(v@ =~= t@.skip(2));
        v
    } else {
        t
    };
    let s = string_of(n.as_slice());
    let b = s.as_str().as_bytes();
    match parse_hex_u32_exec(b, 0, b.len()) {
        Some(v) => {
            assert(b@.subrange(0, b@.len() as int) =~= b@);
            Ok(v)
        },
        None => {
            assert(b@.subrange(0, b@.len() as int) =~= b@);
            Err("failed to parse hex data")
        },
    }
}

} // verus!

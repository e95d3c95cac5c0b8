//! Reading Carlinkit "mini" OTA images.
//!
//! An OTA image starts with a text header of at most `HEADER_SIZE` bytes. The
//! header holds blank-line separated blocks of `key=value` lines; each block with
//! an `img_name` key describes one section. Section payloads follow the header
//! back to back, in the order of their blocks.
use vstd::prelude::*;
use vstd::utf8::*;
use crate::crc::{spec_xor_crc, xor_crc_img};
use crate::md5::{md5_calc, md5_digest, md5_hex_value, parse_md5_hex};
use crate::text::{
    chars_eq_str, chars_of, contains_sub, decode_chars, find_sub_from_exec, key_value,
    key_value_exec, lemma_find_sub, lines, lines_exec, parse_unsigned, parse_unsigned_exec,
    seqs_of, split_sep, split_sep_exec, string_of, trim, trim_chars,
};

verus! {

/// Size of the text header at the start of an OTA image.
pub const HEADER_SIZE: usize = 131_072;
/// Default block size of the block-wise CRC.
pub const BLOCK_SIZE: usize = 131_072;
/// Most sections an OTA image can describe.
pub const MAX_IMAGES: usize = 8;

/// One section of an OTA image.
#[derive(Clone, Debug, PartialEq, Eq)]
pub struct OtaImageSection<'a> {
    pub ty: String,
    pub name: String,
    pub size: u32,
    pub md5: String,
    pub crc: u32,
    pub offset: usize,
    pub data: &'a [u8],
    pub crc_fail: bool,
    pub md5_fail: bool,
}

/// Values of the header that apply to the whole image.
#[derive(Clone, Debug, PartialEq, Eq)]
pub struct OtaImageGlobals {
    pub bs_size: usize,
    pub packet_md5: Option<String>,
    pub packet_md5_fail: bool,
}

/// The fields of one header block, as the header states them.
pub struct SpecFields {
    pub name: Seq<char>,
    pub ty: Seq<char>,
    pub size: u32,
    pub md5: Seq<char>,
    pub crc: u32,
}

/// Fields of a block before any of its lines is read.
pub open spec fn default_fields() -> SpecFields {
    SpecFields { name: seq![], ty: "?"@, size: 0, md5: seq![], crc: 0 }
}

/// `str::parse::<u32>().unwrap_or(0)`.
pub open spec fn u32_or_zero(v: Seq<char>) -> u32 {
    match parse_unsigned(v, u32::MAX as int) {
        Some(x) => x as u32,
        None => 0,
    }
}

/// The effect of one (trimmed) block line on the fields read so far; later lines win.
pub open spec fn apply_field(f: SpecFields, line: Seq<char>) -> SpecFields {
    match key_value(trim(line)) {
        Some((k, v)) => if k == "img_name"@ {
            SpecFields { name: v, ..f }
        } else if k == "img_type"@ {
            SpecFields { ty: v, ..f }
        } else if k == "img_size"@ {
            SpecFields { size: u32_or_zero(v), ..f }
        } else if k == "img_md5"@ {
            SpecFields { md5: v, ..f }
        } else if k == "img_crc"@ {
            SpecFields { crc: u32_or_zero(v), ..f }
        } else {
            f
        },
        None => f,
    }
}

/// The fields stated by a block's lines.
pub open spec fn fold_fields(ls: Seq<Seq<char>>) -> SpecFields
    decreases ls.len(),
{
    if ls.len() == 0 {
        default_fields()
    } else {
        apply_field(fold_fields(ls.drop_last()), ls.last())
    }
}

/// The fields of a header block.
pub open spec fn block_fields(part: Seq<char>) -> SpecFields {
    fold_fields(lines(part))
}

/// The header-wide values: `(block size, packet digest)`.
pub open spec fn apply_global(g: (nat, Option<Seq<char>>), line: Seq<char>) -> (
    nat,
    Option<Seq<char>>,
) {
    match key_value(trim(line)) {
        Some((k, v)) => if k == "bs_size"@ {
            match parse_unsigned(v, usize::MAX as int) {
                Some(x) => (x as nat, g.1),
                None => g,
            }
        } else if k == "ota_img_packet_md5"@ {
            (g.0, Some(v))
        } else {
            g
        },
        None => g,
    }
}

pub open spec fn fold_globals(ls: Seq<Seq<char>>) -> (nat, Option<Seq<char>>)
    decreases ls.len(),
{
    if ls.len() == 0 {
        (BLOCK_SIZE as nat, None)
    } else {
        apply_global(fold_globals(ls.drop_last()), ls.last())
    }
}

/// The header-wide values stated anywhere in the header text (later lines win).
pub open spec fn header_globals(text: Seq<char>) -> (nat, Option<Seq<char>>) {
    fold_globals(lines(text))
}

/// The outcome of walking the header blocks: the sections found with their
/// payload offsets, the offset after the last payload, and whether the walk
/// stopped at a block whose payload does not fit in the image.
pub struct Scan {
    pub found: Seq<(SpecFields, int)>,
    pub end: int,
    pub aborted: bool,
}

/// Walks the header blocks in order, from payload `offset`, having found `count` sections
/// already and holding room for `cap` of them.
pub open spec fn scan(parts: Seq<Seq<char>>, buf_len: int, cap: int, offset: int, count: int) -> Scan
    decreases parts.len(),
{
    if parts.len() == 0 || count >= cap {
        Scan { found: seq![], end: offset, aborted: false }
    } else if !contains_sub(parts[0], "img_name"@) {
        scan(parts.drop_first(), buf_len, cap, offset, count)
    } else {
        let f = block_fields(parts[0]);
        if offset + f.size > buf_len {
            Scan { found: seq![], end: offset, aborted: true }
        } else {
            let rest = scan(parts.drop_first(), buf_len, cap, offset + f.size, count + 1);
            Scan { found: seq![(f, offset)] + rest.found, end: rest.end, aborted: rest.aborted }
        }
    }
}

/// The header bytes: the first `HEADER_SIZE` bytes of the image, or all of them.
pub open spec fn header_bytes(buf: Seq<u8>) -> Seq<u8> {
    if buf.len() < HEADER_SIZE {
        buf
    } else {
        buf.take(HEADER_SIZE as int)
    }
}

/// The header text (meaningful when the header bytes are valid UTF-8).
pub open spec fn header_text(buf: Seq<u8>) -> Seq<char> {
    decode_utf8(header_bytes(buf))
}

/// The result of walking the header of `buf` with room for `cap` sections.
pub open spec fn ota_scan(buf: Seq<u8>, cap: int) -> Scan {
    scan(split_sep(header_text(buf), "\n\n"@), buf.len() as int, cap, HEADER_SIZE as int, 0)
}

/// The payload of a section found at `offset`.
pub open spec fn section_data(buf: Seq<u8>, f: SpecFields, offset: int) -> Seq<u8> {
    buf.subrange(offset, offset + f.size)
}

/// Whether the section's block-wise CRC is stated and does not match its payload.
pub open spec fn crc_mismatch(buf: Seq<u8>, f: SpecFields, offset: int, bs: nat) -> bool {
    f.crc != 0 && spec_xor_crc(section_data(buf, f, offset), bs) != f.crc
}

/// Whether the section's MD5 is stated and either unreadable or different from its payload's.
pub open spec fn md5_mismatch(buf: Seq<u8>, f: SpecFields, offset: int) -> bool {
    f.md5.len() > 0 && match md5_hex_value(encode_utf8(f.md5)) {
        Some(v) => v != md5_digest(section_data(buf, f, offset))@,
        None => true,
    }
}

/// Whether a found section is described exactly by `s`.
pub open spec fn section_matches(
    s: OtaImageSection,
    buf: Seq<u8>,
    f: SpecFields,
    offset: int,
    bs: nat,
) -> bool {
    &&& s.ty@ == f.ty
    &&& s.name@ == f.name
    &&& s.size == f.size
    &&& s.md5@ == f.md5
    &&& s.crc == f.crc
    &&& s.offset == offset
    &&& s.data@ == section_data(buf, f, offset)
    &&& s.crc_fail == crc_mismatch(buf, f, offset, bs)
    &&& s.md5_fail == md5_mismatch(buf, f, offset)
}

/// Whether a slot holds a section described exactly by `f` at `offset`.
pub open spec fn slot_matches(
    slot: Option<OtaImageSection>,
    buf: Seq<u8>,
    f: SpecFields,
    offset: int,
    bs: nat,
) -> bool {
    slot matches Some(s) && section_matches(s, buf, f, offset, bs)
}

/// Whether the whole-image digest is stated, was compared, and does not match.
pub open spec fn packet_mismatch(buf: Seq<u8>, cap: int) -> bool {
    let g = header_globals(header_text(buf));
    let sc = ota_scan(buf, cap);
    g.1 is Some && !sc.aborted && Some(md5_digest(buf.subrange(HEADER_SIZE as int, sc.end))@)
        != md5_hex_value(encode_utf8(g.1->0))
}

/// The inputs on which reading the image finishes without fault: a block size of
/// zero is only met by sections that need no CRC walk, and the whole-image digest
/// is only compared over payloads that lie inside the image.
pub open spec fn ota_parse_defined(buf: Seq<u8>, cap: int) -> bool {
    valid_utf8(header_bytes(buf)) ==> {
        let g = header_globals(header_text(buf));
        let sc = ota_scan(buf, cap);
        &&& g.0 == 0 ==> forall|i: int|
            0 <= i < sc.found.len() ==> (#[trigger] sc.found[i]).0.crc == 0 || sc.found[i].0.size
                == 0
        &&& (g.1 is Some && !sc.aborted) ==> sc.end <= buf.len()
    }
}

impl<'a> OtaImageSection<'a> {
    /// The payload of this section inside `buf`.
    pub fn data(&self, buf: &'a [u8]) -> (r: &'a [u8])
        requires
            self.offset + self.size <= buf@.len(),
        ensures
            r@ == buf@.subrange(self.offset as int, self.offset + self.size),
    {
        let n = buf.len();
        assert(self.offset + self.size <= n);
        vstd::slice::slice_subrange(buf, self.offset, self.offset + self.size as usize)
    }
}

/// Fields of a block, in code.
struct Fields {
    name: Vec<char>,
    ty: Vec<char>,
    size: u32,
    md5: Vec<char>,
    crc: u32,
}

impl Fields {
    spec fn matches(&self, f: SpecFields) -> bool {
        &&& self.name@ == f.name
        &&& self.ty@ == f.ty
        &&& self.size == f.size
        &&& self.md5@ == f.md5
        &&& self.crc == f.crc
    }
}

fn u32_or_zero_exec(v: &[char]) -> (r: u32)
    ensures
        r == u32_or_zero(v@),
{
    match parse_unsigned_exec(v, 0xffff_ffff) {
        Some(x) => x as u32,
        None => 0,
    }
}

fn block_fields_exec(part: &[char]) -> (r: Fields)
    ensures
        r.matches(block_fields(part@)),
{
    let ls = lines_exec(part);
    let ghost lv = seqs_of(ls@);
    let mut f = Fields { name: Vec::new(), ty: chars_of("?"), size: 0, md5: Vec::new(), crc: 0 };
    assert(f.name@ =~= seq![]);
    assert(f.md5@ =~= seq![]);
    assert(lv.take(0) =~= Seq::<Seq<char>>::empty());
    let mut i: usize = 0;
    while i < ls.len()
        invariant
            i <= ls@.len(),
            lv == seqs_of(ls@),
            lv.len() == ls@.len(),
            f.matches(fold_fields(lv.take(i as int))),
        decreases ls@.len() - i,
    {
        assert(lv.take(i + 1).drop_last() =~= lv.take(i as int));
        assert(lv.take(i + 1).last() == ls@[i as int]@);
        let line = trim_chars(ls[i].as_slice());
        match key_value_exec(line.as_slice()) {
            Some((k, v)) => {
                if chars_eq_str(k.as_slice(), "img_name") {
                    f.name = v;
                } else if chars_eq_str(k.as_slice(), "img_type") {
                    f.ty = v;
                } else if chars_eq_str(k.as_slice(), "img_size") {
                    f.size = u32_or_zero_exec(v.as_slice());
                } else if chars_eq_str(k.as_slice(), "img_md5") {
                    f.md5 = v;
                } else if chars_eq_str(k.as_slice(), "img_crc") {
                    f.crc = u32_or_zero_exec(v.as_slice());
                }
            },
            None => {},
        }
        i = i + 1;
    }
    assert(lv.take(ls@.len() as int) =~= lv);
    f
}

/// Reads the header-wide values from the header text.
fn parse_globals(text: &[char]) -> (g: OtaImageGlobals)
    ensures
        g.bs_size as nat == header_globals(text@).0,
        g.packet_md5 is Some <==> header_globals(text@).1 is Some,
        g.packet_md5 matches Some(m) ==> m@ == header_globals(text@).1->0,
        !g.packet_md5_fail,
{
    let ls = lines_exec(text);
    let ghost lv = seqs_of(ls@);
    let mut bs_size: usize = BLOCK_SIZE;
    let mut packet_md5: Option<Vec<char>> = None;
    let mut i: usize = 0;
    assert(lv.take(0) =~= Seq::<Seq<char>>::empty());
    while i < ls.len()
        invariant
            i <= ls@.len(),
            lv == seqs_of(ls@),
            lv.len() == ls@.len(),
            bs_size as nat == fold_globals(lv.take(i as int)).0,
            packet_md5 is Some <==> fold_globals(lv.take(i as int)).1 is Some,
            packet_md5 matches Some(m) ==> m@ == fold_globals(lv.take(i as int)).1->0,
        decreases ls@.len() - i,
    {
        assert(lv.take(i + 1).drop_last() =~= lv.take(i as int));
        assert(lv.take(i + 1).last() == ls@[i as int]@);
        let line = trim_chars(ls[i].as_slice());
        match key_value_exec(line.as_slice()) {
            Some((k, v)) => {
                if chars_eq_str(k.as_slice(), "bs_size") {
                    match parse_unsigned_exec(v.as_slice(), usize::MAX as u64) {
                        Some(x) => {
                            bs_size = x as usize;
                        },
                        None => {},
                    }
                } else if chars_eq_str(k.as_slice(), "ota_img_packet_md5") {
                    packet_md5 = Some(v);
                }
            },
            None => {},
        }
        i = i + 1;
    }
    assert(lv.take(ls@.len() as int) =~= lv);
    let packet_md5 = match packet_md5 {
        Some(m) => Some(string_of(m.as_slice())),
        None => None,
    };
    OtaImageGlobals { bs_size, packet_md5, packet_md5_fail: false }
}

fn digests_equal(a: &[u8; 16], b: &[u8; 16]) -> (r: bool)
    ensures
        r == (a@ == b@),
{
    let mut i: usize = 0;
    while i < 16
        invariant
            i <= 16,
            forall|k: int| 0 <= k < i ==> a@[k] == b@[k],
        decreases 16 - i,
    {
        if a[i] != b[i] {
            return false;
        }
        i = i + 1;
    }
    assert(a@ =~= b@);
    true
}

/// Whether the stated MD5 text is missing its mark on `data`.
fn md5_check_fails(md5: &String, data: &[u8]) -> (r: bool)
    ensures
        r == (md5@.len() > 0 && match md5_hex_value(encode_utf8(md5@)) {
            Some(v) => v != md5_digest(data@)@,
            None => true,
        }),
{
    if md5.as_str().is_empty() {
        return false;
    }
    match parse_md5_hex(md5.as_str()) {
        Some(v) => {
            let d = md5_calc(data);
            !digests_equal(&v, &d)
        },
        None => true,
    }
}

proof fn lemma_scan_skip(parts: Seq<Seq<char>>, p: int, buf_len: int, cap: int, offset: int, count: int)
    requires
        0 <= p < parts.len(),
        count < cap,
        !contains_sub(parts[p], "img_name"@),
    ensures
        scan(parts.skip(p), buf_len, cap, offset, count) == scan(
            parts.skip(p + 1),
            buf_len,
            cap,
            offset,
            count,
        ),
{
    assert(parts.skip(p).drop_first() =~= parts.skip(p + 1));
    assert(parts.skip(p)[0] == parts[p]);
}

proof fn lemma_scan_take(parts: Seq<Seq<char>>, p: int, buf_len: int, cap: int, offset: int, count: int)
    requires
        0 <= p < parts.len(),
        count < cap,
        contains_sub(parts[p], "img_name"@),
        offset + block_fields(parts[p]).size <= buf_len,
    ensures
        ({
            let f = block_fields(parts[p]);
            let rest = scan(parts.skip(p + 1), buf_len, cap, offset + f.size, count + 1);
            scan(parts.skip(p), buf_len, cap, offset, count) == Scan {
                found: seq![(f, offset)] + rest.found,
                end: rest.end,
                aborted: rest.aborted,
            }
        }),
{
    assert(parts.skip(p).drop_first() =~= parts.skip(p + 1));
    assert(parts.skip(p)[0] == parts[p]);
}

/// Reads the header of `buf`, records up to `images.len()` sections into `images` and the
/// header-wide values into `globals`, and returns how many sections were recorded.
fn parse_ota<'a>(
    buf: &'a [u8],
    images: &mut Vec<Option<OtaImageSection<'a>>>,
    globals: &mut OtaImageGlobals,
) -> (count: usize)
    requires
        ota_parse_defined(buf@, old(images)@.len() as int),
    ensures
        final(images)@.len() == old(images)@.len(),
        count <= old(images)@.len(),
        !valid_utf8(header_bytes(buf@)) ==> count == 0 && final(images)@ == old(images)@,
        !valid_utf8(header_bytes(buf@)) ==> *final(globals) == *old(globals),
        valid_utf8(header_bytes(buf@)) ==> ({
            let g = header_globals(header_text(buf@));
            let sc = ota_scan(buf@, old(images)@.len() as int);
            &&& count == sc.found.len()
            &&& final(globals).bs_size as nat == g.0
            &&& final(globals).packet_md5 is Some <==> g.1 is Some
            &&& final(globals).packet_md5 matches Some(m) ==> m@ == g.1->0
            &&& final(globals).packet_md5_fail == packet_mismatch(buf@, old(images)@.len() as int)
            &&& forall|i: int|
                0 <= i < count ==> slot_matches(#[trigger] final(images)@[i],
                    buf@,
                    sc.found[i].0,
                    sc.found[i].1,
                    g.0,
                )
            &&& forall|i: int| count <= i < final(images)@.len() ==> #[trigger] final(images)@[i] == old(images)@[i]
        }),
{
    let n = buf.len();
    let hlen: usize = if n < HEADER_SIZE {
        n
    } else {
        HEADER_SIZE
    };
    let header = vstd::slice::slice_subrange(buf, 0, hlen);
    assert(header@ =~= header_bytes(buf@));
    let text = match decode_chars(header) {
        Some(t) => t,
        None => {
            return 0;
        },
    };
    *globals = parse_globals(text.as_slice());
    let bs = globals.bs_size;
    let sep = chars_of("\n\n");
    proof {
        reveal_strlit("\n\n");
    }
    let parts = split_sep_exec(text.as_slice(), sep.as_slice());
    let key = chars_of("img_name");
    let ghost pv = seqs_of(parts@);
    let ghost cap = images@.len() as int;
    let ghost whole = ota_scan(buf@, cap);
    let ghost g = header_globals(header_text(buf@));
    let ghost found: Seq<(SpecFields, int)> = seq![];
    let ghost old_images = images@;
    let mut count: usize = 0;
    let mut offset: usize = HEADER_SIZE;
    let mut p: usize = 0;
    assert(pv.skip(0) =~= pv);
    let mut aborted = false;
    loop
        invariant_except_break
            p <= parts@.len(),
            pv == seqs_of(parts@),
            pv.len() == parts@.len(),
            pv == split_sep(header_text(buf@), "\n\n"@),
            key@ == "img_name"@,
            n == buf@.len(),
            cap == images@.len(),
            images@.len() == old_images.len(),
            bs as nat == g.0,
            whole == ota_scan(buf@, cap),
            g.0 == 0 ==> forall|i: int|
                0 <= i < whole.found.len() ==> (#[trigger] whole.found[i]).0.crc == 0
                    || whole.found[i].0.size == 0,
            count == found.len(),
            count <= cap,
            HEADER_SIZE <= offset,
            !aborted,
            count > 0 ==> offset <= n,
            ({
                let rest = scan(pv.skip(p as int), n as int, cap, offset as int, count as int);
                &&& whole.found == found + rest.found
                &&& whole.end == rest.end
                &&& whole.aborted == rest.aborted
            }),
            forall|i: int|
                0 <= i < count ==> slot_matches(#[trigger] images@[i],
                    buf@,
                    found[i].0,
                    found[i].1,
                    g.0,
                ),
            forall|i: int| count <= i < images@.len() ==> #[trigger] images@[i] == old_images[i],
        ensures
            count == whole.found.len(),
            count <= cap,
            HEADER_SIZE <= offset,
            aborted == whole.aborted,
            !aborted ==> offset == whole.end,
            count == found.len(),
            found == whole.found,
            images@.len() == old_images.len(),
            forall|i: int|
                0 <= i < count ==> slot_matches(#[trigger] images@[i],
                    buf@,
                    found[i].0,
                    found[i].1,
                    g.0,
                ),
            forall|i: int| count <= i < images@.len() ==> #[trigger] images@[i] == old_images[i],
        decreases parts@.len() - p,
    {
        if p >= parts.len() {
            proof {
                assert(pv.skip(p as int).len() == 0);
                assert(!scan(pv.skip(p as int), n as int, cap, offset as int, count as int).aborted);
                assert(whole.found =~= found);
            }
            break;
        }
        let ghost rest_parts = pv.skip(p as int);
        assert(rest_parts.len() > 0);
        if count >= images.len() {
            proof {
                assert(scan(rest_parts, n as int, cap, offset as int, count as int).found.len() == 0);
                assert(!scan(rest_parts, n as int, cap, offset as int, count as int).aborted);
                assert(whole.found =~= found);
            }
            break;
        }
        let part = &parts[p];
        assert(part@ == pv[p as int]);
        proof {
            lemma_find_sub(part@, key@);
        }
        match find_sub_from_exec(part.as_slice(), key.as_slice(), 0) {
            None => {
                proof {
                    lemma_scan_skip(pv, p as int, n as int, cap, offset as int, count as int);
                }
            },
            Some(_) => {
                let fields = block_fields_exec(part.as_slice());
                let size = fields.size as usize;
                if offset > n || size > n - offset {
                    proof {
                        assert(rest_parts[0] == pv[p as int]);
                        assert(scan(rest_parts, n as int, cap, offset as int, count as int).found.len()
                            == 0);
                        assert(whole.found =~= found);
                    }
                    aborted = true;
                    break;
                }
                proof {
                    lemma_scan_take(pv, p as int, n as int, cap, offset as int, count as int);
                }
                let ghost f = block_fields(pv[p as int]);
                let data = vstd::slice::slice_subrange(buf, offset, offset + size);
                let crc_fail = if fields.crc != 0 {
                    proof {
                        let rest = scan(pv.skip(p as int), n as int, cap, offset as int, count as int);
                        assert(whole.found[count as int] == rest.found[0]);
                    }
                    xor_crc_img(data, bs) != fields.crc
                } else {
                    false
                };
                let md5 = string_of(fields.md5.as_slice());
                let md5_fail = md5_check_fails(&md5, data);
                let section = OtaImageSection {
                    ty: string_of(fields.ty.as_slice()),
                    name: string_of(fields.name.as_slice()),
                    size: fields.size,
                    md5,
                    crc: fields.crc,
                    offset,
                    data,
                    crc_fail,
                    md5_fail,
                };
                images.set(count, Some(section));
                proof {
                    found = found.push((f, offset as int));
                    let rest = scan(pv.skip(p + 1), n as int, cap, offset + f.size, count + 1);
                    assert(whole.found =~= found + rest.found);
                }
                count = count + 1;
                offset = offset + size;
            },
        }
        p = p + 1;
    }
    match &globals.packet_md5 {
        Some(md5) => {
            if !aborted {
                assert(offset <= n);
                let covered = vstd::slice::slice_subrange(buf, HEADER_SIZE, offset);
                let digest = md5_calc(covered);
                let fail = match parse_md5_hex(md5.as_str()) {
                    Some(v) => !digests_equal(&v, &digest),
                    None => true,
                };
                globals.packet_md5_fail = fail;
            }
        },
        None => {},
    }
    count
}

/// An OTA image being read.
pub struct OtaExtractor<'a> {
    buf: &'a [u8],
    sections: Vec<Option<OtaImageSection<'a>>>,
    globals: OtaImageGlobals,
    parsed: bool,
}

/// The first complaint about the sections found, in section order (CRC before MD5
/// within a section), if any.
pub open spec fn first_section_failure(secs: Seq<Option<OtaImageSection>>, n: int) -> Option<
    bool,
>
    decreases n,
{
    if n <= 0 {
        None
    } else {
        match first_section_failure(secs, n - 1) {
            Some(e) => Some(e),
            None => match secs[n - 1] {
                Some(s) => if s.crc_fail {
                    Some(true)
                } else if s.md5_fail {
                    Some(false)
                } else {
                    None
                },
                None => None,
            },
        }
    }
}

proof fn lemma_first_failure_stays(secs: Seq<Option<OtaImageSection>>, i: int, k: int)
    requires
        0 <= i < k,
        first_section_failure(secs, i + 1) is Some,
    ensures
        first_section_failure(secs, k) == first_section_failure(secs, i + 1),
    decreases k,
{
    if k > i + 1 {
        lemma_first_failure_stays(secs, i, k - 1);
    }
}

fn first_failure(secs: &Vec<Option<OtaImageSection>>, n: usize) -> (r: Option<bool>)
    requires
        n <= secs@.len(),
    ensures
        r == first_section_failure(secs@, n as int),
{
    let mut i: usize = 0;
    while i < n
        invariant
            i <= n,
            n <= secs@.len(),
            first_section_failure(secs@, i as int) is None,
        decreases n - i,
    {
        match &secs[i] {
            Some(image) => {
                if image.crc_fail {
                    proof {
                        lemma_first_failure_stays(secs@, i as int, n as int);
                    }
                    return Some(true);
                }
                if image.md5_fail {
                    proof {
                        lemma_first_failure_stays(secs@, i as int, n as int);
                    }
                    return Some(false);
                }
            },
            None => {},
        }
        i = i + 1;
    }
    None
}

impl<'a> OtaExtractor<'a> {
    /// The image being read.
    pub closed spec fn buffer(&self) -> Seq<u8> {
        self.buf@
    }

    /// The section slots, `MAX_IMAGES` of them.
    pub closed spec fn section_slots(&self) -> Seq<Option<OtaImageSection<'a>>> {
        self.sections@
    }

    /// The header-wide values read so far.
    pub closed spec fn global_values(&self) -> OtaImageGlobals {
        self.globals
    }

    /// Whether the last `parse` succeeded.
    pub closed spec fn is_parsed(&self) -> bool {
        self.parsed
    }

    /// An extractor over `buf` with no section read yet.
    pub fn new(buf: &'a [u8]) -> (r: Self)
        ensures
            r.buffer() == buf@,
            r.section_slots() == Seq::new(MAX_IMAGES as nat, |i: int| None::<OtaImageSection<'a>>),
            r.global_values() == (OtaImageGlobals {
                bs_size: 0,
                packet_md5: None,
                packet_md5_fail: false,
            }),
            !r.is_parsed(),
    {
        let mut sections: Vec<Option<OtaImageSection<'a>>> = Vec::new();
        let mut i: usize = 0;
        while i < MAX_IMAGES
            invariant
                i <= MAX_IMAGES,
                sections@ == Seq::new(i as nat, |k: int| None::<OtaImageSection<'a>>),
            decreases MAX_IMAGES - i,
        {
            sections.push(None);
            assert(sections@ =~= Seq::new((i + 1) as nat, |k: int| None::<OtaImageSection<'a>>));
            i = i + 1;
        }
        OtaExtractor {
            buf,
            sections,
            globals: OtaImageGlobals { bs_size: 0, packet_md5: None, packet_md5_fail: false },
            parsed: false,
        }
    }

    /// Reads the image header, checks every section's CRC and MD5 and the whole-image
    /// MD5, and reports the first failure.
    pub fn parse(&mut self) -> (r: Result<(), &'static str>)
        requires
            old(self).section_slots().len() == MAX_IMAGES,
            ota_parse_defined(old(self).buffer(), MAX_IMAGES as int),
        ensures
            final(self).buffer() == old(self).buffer(),
            final(self).section_slots().len() == MAX_IMAGES,
            ({
                let buf = old(self).buffer();
                let n = if valid_utf8(header_bytes(buf)) {
                    ota_scan(buf, MAX_IMAGES as int).found.len() as int
                } else {
                    0
                };
                let secs = final(self).section_slots();
                &&& valid_utf8(header_bytes(buf)) ==> ({
                    let g = header_globals(header_text(buf));
                    let sc = ota_scan(buf, MAX_IMAGES as int);
                    &&& final(self).global_values().bs_size as nat == g.0
                    &&& final(self).global_values().packet_md5 is Some <==> g.1 is Some
                    &&& final(self).global_values().packet_md5 matches Some(m) ==> m@ == g.1->0
                    &&& final(self).global_values().packet_md5_fail == packet_mismatch(
                        buf,
                        MAX_IMAGES as int,
                    )
                    &&& forall|i: int|
                        0 <= i < n ==> slot_matches(#[trigger] secs[i],
                            buf,
                            sc.found[i].0,
                            sc.found[i].1,
                            g.0,
                        )
                })
                &&& !valid_utf8(header_bytes(buf)) ==> final(self).global_values() == old(self).global_values()
                &&& forall|i: int| n <= i < MAX_IMAGES ==> #[trigger] secs[i] == old(self).section_slots()[i]
                &&& n == 0 ==> r == Err::<(), &str>("file has 0 OTA sections")
                &&& n > 0 && first_section_failure(secs, n) == Some(true) ==> r == Err::<
                    (),
                    &str,
                >("failed section crc check")
                &&& n > 0 && first_section_failure(secs, n) == Some(false) ==> r == Err::<
                    (),
                    &str,
                >("failed section md5 check")
                &&& n > 0 && first_section_failure(secs, n) is None
                    && final(self).global_values().packet_md5_fail ==> r == Err::<(), &str>(
                    "failed packet md5 check",
                )
                &&& r is Ok <==> n > 0 && first_section_failure(secs, n) is None && !final(self).global_values().packet_md5_fail
                &&& final(self).is_parsed() == (r is Ok || old(self).is_parsed())
            }),
    {
        let n = parse_ota(self.buf, &mut self.sections, &mut self.globals);
        if n == 0 {
            return Err("file has 0 OTA sections");
        }
        match first_failure(&self.sections, n) {
            Some(true) => {
                return Err("failed section crc check");
            },
            Some(false) => {
                return Err("failed section md5 check");
            },
            None => {},
        }
        if self.globals.packet_md5_fail {
            return Err("failed packet md5 check");
        }
        self.parsed = true;
        Ok(())
    }

    /// The header-wide values.
    pub fn globals(&self) -> (r: &OtaImageGlobals)
        ensures
            *r == self.global_values(),
    {
        &self.globals
    }

    /// The section slots, in header order.
    pub fn sections(&self) -> (r: &[Option<OtaImageSection<'a>>])
        ensures
            r@ == self.section_slots(),
    {
        self.sections.as_slice()
    }
}

} // verus!

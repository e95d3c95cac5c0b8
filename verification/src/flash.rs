//! The SPI flash: which partition layout the device has, and how a read or write of
//! the 16 MB flash image splits over the partition devices.
use vstd::prelude::*;
use crate::hwid::Hwid;
use crate::text::{decode_chars, lemma_parse_unsigned_range, parse_unsigned, parse_unsigned_exec, trim, trim_chars};
use vstd::utf8::{decode_utf8, valid_utf8};
use crate::signer::env::gzip_fits;
use crate::signer::{sign_wic_checked, sign_wic_defined, signed_wic, uboot_crc, wic_env, OLD_UBOOT_CRC};

verus! {

/// The partition layout of the flash.
#[derive(Debug, PartialEq, Eq, Structural, Clone, Copy)]
pub enum FlashLayout {
    /// Custom firmware: the first partition spans the whole 16 MB.
    Modern,
    /// Stock firmware: three partitions that add up to 16 MB.
    Legacy,
    /// Mini Ultra NOR flash: four partitions that add up to 16 MB.
    LegacyUltraNor,
    /// Mini Ultra NAND flash: 128 MB.
    LegacyUltraNand,
    /// Anything else.
    Unknown,
}

/// Size of the flash image.
pub const FLASH_SIZE: usize = 16_777_216;
/// Block size for comparing before writing.
pub const FLASH_BLOCK_SIZE: usize = 65_536;
/// Size of the Mini Ultra NAND flash.
pub const ULTRA_NAND_FLASH_SIZE: usize = 134_217_728;
/// Bytes cleared by `softbrick`.
pub const SOFTBRICK_LEN: usize = 131_072;

/// The flash of the device.
pub struct Flash {
    pub layout: FlashLayout,
}

/// One piece of a flash read or write: `len` bytes at `offset` in partition
/// `partition` (mapped with `part_size` bytes), from or to `start` in the caller's data.
#[derive(Debug, Clone, Copy, PartialEq, Eq, Structural)]
pub struct FlashChunk {
    pub partition: usize,
    pub part_size: usize,
    pub offset: usize,
    pub start: usize,
    pub len: usize,
}

/// The sum of the four partition sizes.
pub open spec fn sizes_sum(s: [usize; 4]) -> int {
    s[0] + s[1] + s[2] + s[3]
}

/// The layout that partition sizes (0 for a partition that is missing) describe.
pub open spec fn layout_of(s: [usize; 4], ultra: bool) -> FlashLayout {
    if ultra && sizes_sum(s) == ULTRA_NAND_FLASH_SIZE {
        FlashLayout::LegacyUltraNand
    } else if s[0] == FLASH_SIZE {
        FlashLayout::Modern
    } else if sizes_sum(s) == FLASH_SIZE && s[0] > 0 && s[1] > 0 && s[2] > 0 {
        if s[3] > 0 && ultra {
            FlashLayout::LegacyUltraNor
        } else {
            FlashLayout::Legacy
        }
    } else {
        FlashLayout::Unknown
    }
}

/// The pieces of a read or write of `len` bytes at `off` over the legacy partitions,
/// from partition `i` on, `start` bytes already placed.
pub open spec fn legacy_chunks(s: Seq<int>, i: int, off: int, start: int, len: int) -> Seq<FlashChunk>
    decreases 4 - i,
{
    if i < 0 || i >= 4 || s.len() != 4 {
        seq![]
    } else if off >= s[i] {
        legacy_chunks(s, i + 1, off - s[i], start, len)
    } else {
        let n = if s[i] - off < len - start {
            s[i] - off
        } else {
            len - start
        };
        let c = FlashChunk {
            partition: i as usize,
            part_size: s[i] as usize,
            offset: off as usize,
            start: start as usize,
            len: n as usize,
        };
        if start + n >= len {
            seq![c]
        } else {
            seq![c] + legacy_chunks(s, i + 1, 0, start + n, len)
        }
    }
}

/// The partition sizes when every partition is online.
pub open spec fn online_sizes(sizes: [Option<usize>; 4]) -> Option<Seq<int>> {
    if sizes[0] is Some && sizes[1] is Some && sizes[2] is Some && sizes[3] is Some {
        Some(seq![sizes[0]->0 as int, sizes[1]->0 as int, sizes[2]->0 as int, sizes[3]->0 as int])
    } else {
        None
    }
}

/// What a read or write of `len` bytes at `offset` does with the current layout and the
/// partitions' sizes (`None` for a partition that is offline): the pieces, or why not.
pub open spec fn transfer_plan(
    offset: int,
    len: int,
    current: FlashLayout,
    sizes: [Option<usize>; 4],
    too_big: &'static str,
    too_big2: &'static str,
) -> Result<Seq<FlashChunk>, &'static str> {
    if offset + len > FLASH_SIZE {
        Err(too_big)
    } else {
        match current {
            FlashLayout::Modern => Ok(
                seq![
                    FlashChunk {
                        partition: 0,
                        part_size: FLASH_SIZE,
                        offset: offset as usize,
                        start: 0,
                        len: len as usize,
                    },
                ],
            ),
            FlashLayout::Legacy | FlashLayout::LegacyUltraNor => match online_sizes(sizes) {
                None => Err("legacy partition is offline"),
                Some(s) => if offset + len > s[0] + s[1] + s[2] + s[3] {
                    Err(too_big2)
                } else {
                    Ok(legacy_chunks(s, 0, offset, 0, len))
                },
            },
            FlashLayout::LegacyUltraNand => Err("flashing ultra NAND not supported yet"),
            FlashLayout::Unknown => Err("unknown flash layout"),
        }
    }
}

/// A planned transfer as the plan describes it.
pub open spec fn agrees(
    res: Result<Vec<FlashChunk>, &'static str>,
    plan: Result<Seq<FlashChunk>, &'static str>,
) -> bool {
    match res {
        Ok(v) => plan == Ok::<Seq<FlashChunk>, &'static str>(v@),
        Err(e) => plan == Err::<Seq<FlashChunk>, &'static str>(e),
    }
}

/// What a write of `len` bytes at `offset` does.
pub open spec fn write_plan(offset: int, len: int, current: FlashLayout, sizes: [Option<usize>; 4]) -> Result<
    Seq<FlashChunk>,
    &'static str,
> {
    transfer_plan(offset, len, current, sizes, "write exceeds flash size", "write exceeds flash size #2")
}

/// What a read of `len` bytes at `offset` does.
pub open spec fn read_plan(offset: int, len: int, current: FlashLayout, sizes: [Option<usize>; 4]) -> Result<
    Seq<FlashChunk>,
    &'static str,
> {
    transfer_plan(offset, len, current, sizes, "read exceeds flash size", "read exceeds flash size #2")
}

/// What signing a 16 MB image in place and planning its write does: `None` where signing
/// is not defined for the image, an error for a wrong size, an unknown bootloader or
/// an environment that does not fit, else the signed image and its write.
pub open spec fn sign_outcome(
    before: Seq<u8>,
    after: Seq<u8>,
    hwid: Hwid,
    r: Option<Result<Vec<FlashChunk>, &'static str>>,
    current: FlashLayout,
    sizes: [Option<usize>; 4],
) -> bool {
    if before.len() != FLASH_SIZE {
        r == Some(Err::<Vec<FlashChunk>, &'static str>("invalid file size for flashing"))
            && after == before
    } else if !sign_wic_defined(before) {
        r is None && after == before
    } else if uboot_crc(before) != OLD_UBOOT_CRC {
        r == Some(Err::<Vec<FlashChunk>, &'static str>("invalid uboot crc (unknown bootloader revision)"))
            && after == before
    } else if !gzip_fits(wic_env(), seq![]) {
        r == Some(Err::<Vec<FlashChunk>, &'static str>("buffer too small")) && after == before
    } else {
        &&& after == signed_wic(before, hwid)
        &&& r is Some
        &&& agrees(r->0, write_plan(0, FLASH_SIZE as int, current, sizes))
    }
}

/// The partition sizes fit a machine word when added.
pub open spec fn sizes_fit(sizes: [Option<usize>; 4]) -> bool {
    forall|i: int| 0 <= i < 4 ==> (#[trigger] sizes[i]) is Some ==> sizes[i]->0 <= usize::MAX / 4
}

fn legacy_plan(s: [usize; 4], offset: usize, len: usize) -> (r: Vec<FlashChunk>)
    requires
        s[0] + s[1] + s[2] + s[3] <= usize::MAX,
        offset + len <= s[0] + s[1] + s[2] + s[3],
    ensures
        r@ == legacy_chunks(seq![s[0] as int, s[1] as int, s[2] as int, s[3] as int], 0, offset as int, 0, len as int),
{
    let ghost sv = seq![s[0] as int, s[1] as int, s[2] as int, s[3] as int];
    let mut out: Vec<FlashChunk> = Vec::new();
    let mut written: usize = 0;
    let mut off: usize = offset;
    let mut i: usize = 0;
    proof {
        assert(sizes_from(sv, 4) == 0);
        assert(sizes_from(sv, 3) == s[3]);
        assert(sizes_from(sv, 2) == s[2] + s[3]);
        assert(sizes_from(sv, 1) == s[1] + s[2] + s[3]);
        assert(sizes_from(sv, 0) == s[0] + s[1] + s[2] + s[3]);
    }
    assert(out@ + legacy_chunks(sv, 0, offset as int, 0, len as int) =~= legacy_chunks(sv, 0, offset as int, 0, len as int));
    while i < 4
        invariant_except_break
            i <= 4,
            written <= len,
            sv == seq![s[0] as int, s[1] as int, s[2] as int, s[3] as int],
            off + (len - written) <= sizes_from(sv, i as int),
            sizes_from(sv, 0) == s[0] + s[1] + s[2] + s[3],
            s[0] + s[1] + s[2] + s[3] <= usize::MAX,
            out@ + legacy_chunks(sv, i as int, off as int, written as int, len as int)
                == legacy_chunks(sv, 0, offset as int, 0, len as int),
        ensures
            out@ == legacy_chunks(sv, 0, offset as int, 0, len as int),
        decreases 4 - i,
    {
        let sz = s[i];
        if off >= sz {
            off = off - sz;
            i = i + 1;
            continue;
        }
        let avail = sz - off;
        let rest = len - written;
        let n = if avail < rest {
            avail
        } else {
            rest
        };
        let c = FlashChunk { partition: i, part_size: sz, offset: off, start: written, len: n };
        let ghost before = out@;
        out.push(c);
        written = written + n;
        off = 0;
        if written >= len {
            assert(legacy_chunks(sv, i as int, c.offset as int, c.start as int, len as int) =~= seq![c]);
            assert(out@ =~= before + legacy_chunks(sv, i as int, c.offset as int, c.start as int, len as int));
            break;
        }
        assert(before + legacy_chunks(sv, i as int, c.offset as int, c.start as int, len as int) =~= out@
            + legacy_chunks(sv, i + 1, 0, written as int, len as int));
        i = i + 1;
        if i == 4 {
            assert(legacy_chunks(sv, 4, off as int, written as int, len as int) =~= Seq::<FlashChunk>::empty());
        }
    }
    out
}

/// Sizes of the partitions from `i` on, added.
pub open spec fn sizes_from(s: Seq<int>, i: int) -> int
    decreases 4 - i,
{
    if i < 0 || i >= 4 {
        0
    } else {
        s[i] + sizes_from(s, i + 1)
    }
}

fn transfer(
    offset: usize,
    len: usize,
    current: FlashLayout,
    sizes: [Option<usize>; 4],
    too_big: &'static str,
    too_big2: &'static str,
) -> (r: Result<Vec<FlashChunk>, &'static str>)
    requires
        offset + len <= usize::MAX,
        sizes_fit(sizes),
    ensures
        agrees(r, transfer_plan(offset as int, len as int, current, sizes, too_big, too_big2)),
{
    if offset + len > FLASH_SIZE {
        return Err(too_big);
    }
    match current {
        FlashLayout::Modern => {
            let mut v: Vec<FlashChunk> = Vec::new();
            v.push(FlashChunk { partition: 0, part_size: FLASH_SIZE, offset, start: 0, len });
            Ok(v)
        },
        FlashLayout::Legacy | FlashLayout::LegacyUltraNor => {
            let mut s: [usize; 4] = [0, 0, 0, 0];
            let mut i: usize = 0;
            while i < 4
                invariant
                    i <= 4,
                    sizes_fit(sizes),
                    current == FlashLayout::Legacy || current == FlashLayout::LegacyUltraNor,
                    offset + len <= FLASH_SIZE,
                    forall|k: int| 0 <= k < i ==> (#[trigger] sizes[k]) is Some && s[k] == sizes[k]->0,
                decreases 4 - i,
            {
                match sizes[i] {
                    Some(v) => {
                        s[i] = v;
                    },
                    None => {
                        return Err("legacy partition is offline");
                    },
                }
                i = i + 1;
            }
            assert(sizes[0] is Some && sizes[1] is Some && sizes[2] is Some && sizes[3] is Some);
            assert(s[0] <= usize::MAX / 4 && s[1] <= usize::MAX / 4 && s[2] <= usize::MAX / 4 && s[3]
                <= usize::MAX / 4);
            let total = s[0] + s[1] + s[2] + s[3];
            if offset + len > total {
                return Err(too_big2);
            }
            let v = legacy_plan(s, offset, len);
            assert(online_sizes(sizes) == Some(seq![s[0] as int, s[1] as int, s[2] as int, s[3] as int]));
            Ok(v)
        },
        FlashLayout::LegacyUltraNand => Err("flashing ultra NAND not supported yet"),
        FlashLayout::Unknown => Err("unknown flash layout"),
    }
}

impl Flash {
    /// The layout that the partition sizes describe (0 for a partition that is missing),
    /// on a Mini Ultra (`ultra`) or not.
    pub fn layout(sizes: [usize; 4], ultra: bool) -> (r: FlashLayout)
        requires
            sizes_sum(sizes) <= usize::MAX,
        ensures
            r == layout_of(sizes, ultra),
    {
        let sum = sizes[0] + sizes[1] + sizes[2] + sizes[3];
        if ultra && sum == ULTRA_NAND_FLASH_SIZE {
            return FlashLayout::LegacyUltraNand;
        }
        if sizes[0] == FLASH_SIZE {
            return FlashLayout::Modern;
        }
        if sum == FLASH_SIZE && sizes[0] > 0 && sizes[1] > 0 && sizes[2] > 0 {
            if sizes[3] > 0 && ultra {
                return FlashLayout::LegacyUltraNor;
            }
            return FlashLayout::Legacy;
        }
        FlashLayout::Unknown
    }

    /// The flash with the layout that the partition sizes describe.
    pub fn new(sizes: [usize; 4], ultra: bool) -> (r: Flash)
        requires
            sizes_sum(sizes) <= usize::MAX,
        ensures
            r.layout == layout_of(sizes, ultra),
    {
        Flash { layout: Self::layout(sizes, ultra) }
    }

    /// Whether the layout is known.
    pub fn valid(&self) -> (r: bool)
        ensures
            r == (self.layout != FlashLayout::Unknown),
    {
        self.layout != FlashLayout::Unknown
    }

    /// Size of the flash: 128 MB for the Mini Ultra NAND, else 16 MB.
    pub fn size(&self, ultra: bool, current: FlashLayout) -> (r: usize)
        ensures
            r == if ultra && current == FlashLayout::LegacyUltraNand {
                ULTRA_NAND_FLASH_SIZE
            } else {
                FLASH_SIZE
            },
    {
        if ultra && current == FlashLayout::LegacyUltraNand {
            return ULTRA_NAND_FLASH_SIZE;
        }
        FLASH_SIZE
    }

    /// Where the `len` bytes of a write at `offset` go, for the current layout and
    /// partition sizes (`None` for a partition that is offline).
    pub fn write(
        &self,
        offset: usize,
        len: usize,
        current: FlashLayout,
        sizes: [Option<usize>; 4],
    ) -> (r: Result<Vec<FlashChunk>, &'static str>)
        requires
            offset + len <= usize::MAX,
            sizes_fit(sizes),
        ensures
            agrees(r, write_plan(offset as int, len as int, current, sizes)),
    {
        transfer(offset, len, current, sizes, "write exceeds flash size", "write exceeds flash size #2")
    }

    /// Where the `len` bytes of a read at `offset` come from.
    pub fn read(
        &self,
        offset: usize,
        len: usize,
        current: FlashLayout,
        sizes: [Option<usize>; 4],
    ) -> (r: Result<Vec<FlashChunk>, &'static str>)
        requires
            offset + len <= usize::MAX,
            sizes_fit(sizes),
        ensures
            agrees(r, read_plan(offset as int, len as int, current, sizes)),
    {
        transfer(offset, len, current, sizes, "read exceeds flash size", "read exceeds flash size #2")
    }

    /// Reading the whole flash into a buffer of `buf_len` bytes, which must be 16 MB.
    pub fn backup(&self, buf_len: usize, current: FlashLayout, sizes: [Option<usize>; 4]) -> (r: Result<
        Vec<FlashChunk>,
        &'static str,
    >)
        requires
            sizes_fit(sizes),
        ensures
            buf_len != FLASH_SIZE ==> r == Err::<Vec<FlashChunk>, &'static str>(
                "invalid buffer size for backup",
            ),
            buf_len == FLASH_SIZE ==> agrees(r, read_plan(0, FLASH_SIZE as int, current, sizes)),
    {
        if buf_len != FLASH_SIZE {
            return Err("invalid buffer size for backup");
        }
        self.read(0, buf_len, current, sizes)
    }

    /// Writing an unsigned 16 MB image.
    pub fn flash_nosign(&self, buf: &[u8], current: FlashLayout, sizes: [Option<usize>; 4]) -> (r: Result<
        Vec<FlashChunk>,
        &'static str,
    >)
        requires
            sizes_fit(sizes),
        ensures
            buf@.len() != FLASH_SIZE ==> r == Err::<Vec<FlashChunk>, &'static str>(
                "invalid file size for flashing",
            ),
            buf@.len() == FLASH_SIZE ==> agrees(r, write_plan(0, FLASH_SIZE as int, current, sizes)),
    {
        if buf.len() != FLASH_SIZE {
            return Err("invalid file size for flashing");
        }
        self.write(0, buf.len(), current, sizes)
    }

    /// Signs a 16 MB image for the device `hwid` in place, then plans its write. `None`
    /// where signing is not defined for the image (see `sign_wic_defined`); the image is
    /// then unchanged.
    pub fn flash_sign(
        &self,
        buf: &mut [u8],
        hwid: Hwid,
        current: FlashLayout,
        sizes: [Option<usize>; 4],
    ) -> (r: Option<Result<Vec<FlashChunk>, &'static str>>)
        requires
            sizes_fit(sizes),
        ensures
            sign_outcome(old(buf)@, final(buf)@, hwid, r, current, sizes),
    {
        if buf.len() != FLASH_SIZE {
            return Some(Err("invalid file size for flashing"));
        }
        let n = buf.len();
        match sign_wic_checked(buf, hwid) {
            None => None,
            Some(Err(e)) => Some(Err(e)),
            Some(Ok(())) => Some(self.write(0, n, current, sizes)),
        }
    }

    /// Writing an image, signed for the device unless it is a Mini Ultra. `hwid` is what
    /// reading the device's hardware id gave; it is not used on a Mini Ultra.
    pub fn flash_autosign(
        &self,
        buf: &mut [u8],
        ultra: bool,
        hwid: Result<Hwid, &'static str>,
        current: FlashLayout,
        sizes: [Option<usize>; 4],
    ) -> (r: Option<Result<Vec<FlashChunk>, &'static str>>)
        requires
            sizes_fit(sizes),
        ensures
            ultra ==> final(buf)@ == old(buf)@ && r is Some && (old(buf)@.len() != FLASH_SIZE
                ==> r->0 == Err::<Vec<FlashChunk>, &'static str>("invalid file size for flashing"))
                && (old(buf)@.len() == FLASH_SIZE ==> agrees(
                r->0,
                write_plan(0, FLASH_SIZE as int, current, sizes),
            )),
            !ultra ==> match hwid {
                Err(e) => r == Some(Err::<Vec<FlashChunk>, &'static str>(e)) && final(buf)@ == old(
                    buf,
                )@,
                Ok(h) => sign_outcome(old(buf)@, final(buf)@, h, r, current, sizes),
            },
    {
        if ultra {
            return Some(self.flash_nosign(buf, current, sizes));
        }
        match hwid {
            Err(e) => Some(Err(e)),
            Ok(h) => self.flash_sign(buf, h, current, sizes),
        }
    }

    /// Fitting a fitImage needs the modern layout; writing one is not implemented.
    pub fn flash_fitimage(&self, current: FlashLayout) -> (r: Result<(), &'static str>)
        requires
            current != FlashLayout::Modern,
        ensures
            r == Err::<(), &'static str>("flash layout too old to use fitImage flash"),
    {
        Err("flash layout too old to use fitImage flash")
    }

    /// Clearing the first 128 KB, which makes the device boot from USB.
    pub fn softbrick(&self, current: FlashLayout, sizes: [Option<usize>; 4]) -> (r: Result<
        Vec<FlashChunk>,
        &'static str,
    >)
        requires
            sizes_fit(sizes),
        ensures
            agrees(r, write_plan(0, SOFTBRICK_LEN as int, current, sizes)),
    {
        self.write(0, SOFTBRICK_LEN, current, sizes)
    }
}

/// Where partition `p` starts in the flash image.
pub open spec fn part_base(s: Seq<int>, p: int) -> int
    decreases p,
{
    if p <= 0 {
        0
    } else {
        part_base(s, p - 1) + s[p - 1]
    }
}

/// The pieces lie inside their partitions, follow each other through the data from
/// `start` to `len`, and each is the data at its own place in the flash image, which
/// the transfer starts at `pos`.
pub open spec fn chunks_tile(s: Seq<int>, cs: Seq<FlashChunk>, pos: int, start: int, len: int) -> bool {
    &&& forall|k: int|
        0 <= k < cs.len() ==> {
            let c = #[trigger] cs[k];
            &&& 0 <= c.partition < 4
            &&& c.part_size == s[c.partition as int]
            &&& c.offset + c.len <= s[c.partition as int]
            &&& part_base(s, c.partition as int) + c.offset == pos + c.start - start
        }
    &&& forall|k: int| 0 < k < cs.len() ==> (#[trigger] cs[k]).start == cs[k - 1].start + cs[k - 1].len
    &&& cs.len() == 0 ==> start == len
    &&& cs.len() > 0 ==> cs[0].start == start && cs.last().start + cs.last().len == len
}

proof fn lemma_legacy_chunks_tile(s: Seq<int>, i: int, off: int, start: int, len: int)
    requires
        s.len() == 4,
        forall|k: int| 0 <= k < 4 ==> 0 <= #[trigger] s[k] <= usize::MAX,
        0 <= i <= 4,
        0 <= off,
        0 <= start <= len <= usize::MAX,
        off + (len - start) <= sizes_from(s, i),
    ensures
        chunks_tile(s, legacy_chunks(s, i, off, start, len), part_base(s, i) + off, start, len),
        forall|k: int|
            0 <= k < legacy_chunks(s, i, off, start, len).len() ==> i <= (#[trigger] legacy_chunks(
                s,
                i,
                off,
                start,
                len,
            )[k]).partition,
    decreases 4 - i,
{
    let cs = legacy_chunks(s, i, off, start, len);
    if i >= 4 {
    } else if off >= s[i] {
        lemma_legacy_chunks_tile(s, i + 1, off - s[i], start, len);
        assert(part_base(s, i + 1) == part_base(s, i) + s[i]);
    } else {
        let n = if s[i] - off < len - start {
            s[i] - off
        } else {
            len - start
        };
        let c = FlashChunk {
            partition: i as usize,
            part_size: s[i] as usize,
            offset: off as usize,
            start: start as usize,
            len: n as usize,
        };
        if start + n >= len {
            assert(cs =~= seq![c]);
        } else {
            let rest = legacy_chunks(s, i + 1, 0, start + n, len);
            lemma_legacy_chunks_tile(s, i + 1, 0, start + n, len);
            assert(part_base(s, i + 1) == part_base(s, i) + s[i]);
            assert(cs =~= seq![c] + rest);
            assert(rest.len() > 0);
            assert forall|k: int| 0 < k < cs.len() implies (#[trigger] cs[k]).start == cs[k - 1].start
                + cs[k - 1].len by {
                if k > 1 {
                    assert(cs[k] == rest[k - 1]);
                    assert(cs[k - 1] == rest[k - 2]);
                } else {
                    assert(cs[0] == c);
                    assert(cs[1] == rest[0]);
                    assert(rest[0].start == start + n);
                }
            }
            assert forall|k: int| 0 <= k < cs.len() implies i <= (#[trigger] cs[k]).partition by {
                if k > 0 {
                    assert(cs[k] == rest[k - 1]);
                }
            }
            assert forall|k: int| 0 <= k < cs.len() implies {
                let c = #[trigger] cs[k];
                &&& 0 <= c.partition < 4
                &&& c.part_size == s[c.partition as int]
                &&& c.offset + c.len <= s[c.partition as int]
                &&& part_base(s, c.partition as int) + c.offset == part_base(s, i) + off + c.start - start
            } by {
                if k > 0 {
                    assert(cs[k] == rest[k - 1]);
                }
            }
        }
    }
}

/// A read or write over the legacy partitions never crosses a partition's end and
/// covers the data exactly, each piece at its own place in the flash image.
pub proof fn lemma_legacy_plan_tiles(s: Seq<int>, offset: int, len: int)
    requires
        s.len() == 4,
        forall|k: int| 0 <= k < 4 ==> 0 <= #[trigger] s[k] <= usize::MAX,
        0 <= offset,
        0 <= len <= usize::MAX,
        offset + len <= s[0] + s[1] + s[2] + s[3],
    ensures
        chunks_tile(s, legacy_chunks(s, 0, offset, 0, len), offset, 0, len),
{
    assert(sizes_from(s, 4) == 0);
    assert(sizes_from(s, 3) == s[3]);
    assert(sizes_from(s, 2) == s[2] + s[3]);
    assert(sizes_from(s, 1) == s[1] + s[2] + s[3]);
    assert(sizes_from(s, 0) == s[0] + s[1] + s[2] + s[3]);
    lemma_legacy_chunks_tile(s, 0, offset, 0, len);
}

/// The size in bytes that the text of a partition's sysfs `size` file (a count of
/// 512-byte sectors, surrounding whitespace ignored) states, when it is a number whose
/// byte count fits a machine word.
pub open spec fn partition_bytes_of(text: Seq<u8>) -> Option<int> {
    if !valid_utf8(text) {
        None
    } else {
        match parse_unsigned(trim(decode_utf8(text)), usize::MAX as int) {
            Some(n) => if n * 512 <= usize::MAX {
                Some(n * 512)
            } else {
                None
            },
            None => None,
        }
    }
}

/// The size in bytes of a partition, read from the text of its sysfs `size` file.
pub fn partition_bytes(text: &[u8]) -> (r: Option<usize>)
    ensures
        match partition_bytes_of(text@) {
            Some(n) => r == Some(n as usize),
            None => r is None,
        },
{
    let cs = match decode_chars(text) {
        Some(c) => c,
        None => {
            return None;
        },
    };
    let t = trim_chars(cs.as_slice());
    match parse_unsigned_exec(t.as_slice(), usize::MAX as u64) {
        Some(n) => {
            proof {
                lemma_parse_unsigned_range(t@, usize::MAX as int);
            }
            let sectors = n as usize;
            sectors.checked_mul(512)
        },
        None => None,
    }
}

} // verus!

//! Writing Carlinkit "mini" OTA images.
use vstd::prelude::*;
use vstd::utf8::*;
use crate::bytes::extend_bytes;
use crate::crc::{spec_xor_crc, xor_crc_img};
use crate::md5::{md5_calc, md5_digest};
use crate::ota::{BLOCK_SIZE, HEADER_SIZE, MAX_IMAGES};
use crate::text::{chars_of, dec_chars, hex_fixed, push_chars, push_decimal, push_hex_fixed, string_of};

verus! {

/// Longest header (in bytes) the packer writes.
pub const HEADER_SIZE_MAX: usize = 8192;

struct OtaPackerSection<'a> {
    data: &'a [u8],
    img_type: &'a str,
    img_name: &'a str,
    img_md5: [u8; 16],
    img_crc: u32,
}

/// Builds an OTA image out of up to `MAX_IMAGES` sections.
pub struct OtaPacker<'a> {
    images: Vec<OtaPackerSection<'a>>,
}

/// A section as the packer holds it: payload, type and name.
pub struct PackedSection {
    pub data: Seq<u8>,
    pub img_type: Seq<char>,
    pub img_name: Seq<char>,
}

/// Two lowercase hexadecimal digits per byte.
pub open spec fn hex_bytes(b: Seq<u8>) -> Seq<char>
    decreases b.len(),
{
    if b.len() == 0 {
        seq![]
    } else {
        hex_bytes(b.drop_last()) + hex_fixed(b.last() as nat, 2)
    }
}

/// The header block describing one section.
pub open spec fn header_block(s: PackedSection) -> Seq<char> {
    "img_type="@ + s.img_type + "\nimg_name="@ + s.img_name + "\nimg_size="@ + dec_chars(
        s.data.len(),
    ) + "\nimg_md5="@ + hex_bytes(md5_digest(s.data)@) + "\nimg_crc="@ + dec_chars(
        spec_xor_crc(s.data, BLOCK_SIZE as nat) as nat,
    ) + "\n\n"@
}

pub open spec fn header_blocks(secs: Seq<PackedSection>) -> Seq<char>
    decreases secs.len(),
{
    if secs.len() == 0 {
        seq![]
    } else {
        header_blocks(secs.drop_last()) + header_block(secs.last())
    }
}

/// All payloads, back to back.
pub open spec fn payloads(secs: Seq<PackedSection>) -> Seq<u8>
    decreases secs.len(),
{
    if secs.len() == 0 {
        seq![]
    } else {
        payloads(secs.drop_last()) + secs.last().data
    }
}

/// The full header text of an image made of `secs`.
pub open spec fn header_text_of(secs: Seq<PackedSection>) -> Seq<char> {
    "ota_version=0\n\n"@ + header_blocks(secs) + "check_img=1\n"@ + "bs_size="@ + dec_chars(
        BLOCK_SIZE as nat,
    ) + "\nota_img_packet_md5="@ + hex_bytes(md5_digest(payloads(secs))@) + "\n"@
}

/// The bytes of an image made of `secs`, written over `out`: the header at the start,
/// the payloads from `HEADER_SIZE` on, everything else left as it was.
pub open spec fn packed_image(secs: Seq<PackedSection>, out: Seq<u8>) -> Seq<u8> {
    let h = encode_utf8(header_text_of(secs));
    let p = payloads(secs);
    Seq::new(
        out.len(),
        |i: int|
            if i < h.len() {
                h[i]
            } else if HEADER_SIZE <= i < HEADER_SIZE + p.len() {
                p[i - HEADER_SIZE]
            } else {
                out[i]
            },
    )
}

impl<'a> OtaPacker<'a> {
    /// The sections added so far, in order.
    pub closed spec fn sections_added(&self) -> Seq<PackedSection> {
        Seq::new(
            self.images@.len(),
            |i: int|
                PackedSection {
                    data: self.images@[i].data@,
                    img_type: self.images@[i].img_type@,
                    img_name: self.images@[i].img_name@,
                },
        )
    }

    /// The stored digests and CRCs agree with the payloads, and there is room for at most
    /// `MAX_IMAGES` sections.
    pub closed spec fn wf(&self) -> bool {
        &&& self.images@.len() <= MAX_IMAGES
        &&& forall|i: int|
            0 <= i < self.images@.len() ==> {
                &&& (#[trigger] self.images@[i]).img_md5 == md5_digest(self.images@[i].data@)
                &&& self.images@[i].img_crc == spec_xor_crc(
                    self.images@[i].data@,
                    BLOCK_SIZE as nat,
                )
            }
    }

    /// An empty packer.
    pub fn new() -> (r: Self)
        ensures
            r.wf(),
            r.sections_added().len() == 0,
    {
        OtaPacker { images: Vec::new() }
    }

    /// Size of the image: the header area plus all payloads.
    pub fn output_size(&self) -> (r: usize)
        requires
            HEADER_SIZE + payloads(self.sections_added()).len() <= usize::MAX,
        ensures
            r == HEADER_SIZE + payloads(self.sections_added()).len(),
    {
        let mut size: usize = HEADER_SIZE;
        let mut i: usize = 0;
        let ghost secs = self.sections_added();
        while i < self.images.len()
            invariant
                i <= self.images@.len(),
                secs == self.sections_added(),
                HEADER_SIZE + payloads(secs).len() <= usize::MAX,
                size == HEADER_SIZE + payloads(secs.take(i as int)).len(),
            decreases self.images@.len() - i,
        {
            assert(secs.take(i + 1).drop_last() =~= secs.take(i as int));
            proof {
                lemma_payloads_prefix(secs, i + 1);
            }
            size = size + self.images[i].data.len();
            i = i + 1;
        }
        assert(secs.take(i as int) =~= secs);
        size
    }

    /// Adds a section; its MD5 and block CRC are computed now.
    pub fn add(&mut self, img_type: &'a str, img_name: &'a str, data: &'a [u8])
        requires
            old(self).wf(),
            old(self).sections_added().len() < MAX_IMAGES,
        ensures
            final(self).wf(),
            final(self).sections_added() == old(self).sections_added().push(
                PackedSection { data: data@, img_type: img_type@, img_name: img_name@ },
            ),
    {
        let img = OtaPackerSection {
            data,
            img_type,
            img_name,
            img_md5: md5_calc(data),
            img_crc: xor_crc_img(data, BLOCK_SIZE),
        };
        self.images.push(img);
        assert(self.sections_added() =~= old(self).sections_added().push(
            PackedSection { data: data@, img_type: img_type@, img_name: img_name@ },
        ));
    }

    /// The header text (`key=value` lines, one blank-line separated block per section).
    pub fn build_header(&self) -> (r: String)
        requires
            self.wf(),
        ensures
            r@ == header_text_of(self.sections_added()),
    {
        let ghost secs = self.sections_added();
        let mut h: Vec<char> = chars_of("ota_version=0\n\n");
        let mut all: Vec<u8> = Vec::new();
        let mut i: usize = 0;
        assert(secs.take(0) =~= Seq::<PackedSection>::empty());
        while i < self.images.len()
            invariant
                self.wf(),
                i <= self.images@.len(),
                secs == self.sections_added(),
                h@ == "ota_version=0\n\n"@ + header_blocks(secs.take(i as int)),
                all@ == payloads(secs.take(i as int)),
            decreases self.images@.len() - i,
        {
            let img = &self.images[i];
            let ghost before = h@;
            push_chars(&mut h, chars_of("img_type=").as_slice());
            push_chars(&mut h, chars_of(img.img_type).as_slice());
            push_chars(&mut h, chars_of("\nimg_name=").as_slice());
            push_chars(&mut h, chars_of(img.img_name).as_slice());
            push_chars(&mut h, chars_of("\nimg_size=").as_slice());
            push_decimal(&mut h, img.data.len() as u64);
            push_chars(&mut h, chars_of("\nimg_md5=").as_slice());
            push_hex_bytes(&mut h, &img.img_md5);
            push_chars(&mut h, chars_of("\nimg_crc=").as_slice());
            push_decimal(&mut h, img.img_crc as u64);
            push_chars(&mut h, chars_of("\n\n").as_slice());
            extend_bytes(&mut all, img.data);
            proof {
                assert(secs.take(i + 1).drop_last() =~= secs.take(i as int));
                assert(secs.take(i + 1).last() == secs[i as int]);
                assert(h@ =~= before + header_block(secs[i as int]));
            }
            i = i + 1;
        }
        assert(secs.take(i as int) =~= secs);
        push_chars(&mut h, chars_of("check_img=1\n").as_slice());
        push_chars(&mut h, chars_of("bs_size=").as_slice());
        push_decimal(&mut h, BLOCK_SIZE as u64);
        let digest = md5_calc(all.as_slice());
        push_chars(&mut h, chars_of("\nota_img_packet_md5=").as_slice());
        push_hex_bytes(&mut h, &digest);
        push_chars(&mut h, chars_of("\n").as_slice());
        assert(h@ =~= header_text_of(secs));
        string_of(h.as_slice())
    }

    /// Writes the image into `out`: the header at the start and the payloads from
    /// `HEADER_SIZE` on; every other byte of `out` is left unchanged.
    pub fn pack(&self, out: &mut [u8])
        requires
            self.wf(),
            encode_utf8(header_text_of(self.sections_added())).len() <= HEADER_SIZE_MAX,
            HEADER_SIZE + payloads(self.sections_added()).len() <= old(out)@.len(),
        ensures
            final(out)@ == packed_image(self.sections_added(), old(out)@),
    {
        let ghost secs = self.sections_added();
        let header = self.build_header();
        let hb = header.as_str().as_bytes();
        let ghost h = encode_utf8(header_text_of(secs));
        assert(hb@ == h);
        let n = out.len();
        let mut k: usize = 0;
        while k < hb.len()
            invariant
                k <= hb@.len(),
                hb@ == h,
                h.len() <= HEADER_SIZE_MAX,
                n == out@.len(),
                n == old(out)@.len(),
                HEADER_SIZE <= n,
                forall|j: int| 0 <= j < k ==> out@[j] == h[j],
                forall|j: int| k <= j < n ==> out@[j] == old(out)@[j],
            decreases hb@.len() - k,
        {
            out[k] = hb[k];
            k = k + 1;
        }
        let mut offset: usize = HEADER_SIZE;
        let mut i: usize = 0;
        assert(secs.take(0) =~= Seq::<PackedSection>::empty());
        while i < self.images.len()
            invariant
                i <= self.images@.len(),
                secs == self.sections_added(),
                n == out@.len(),
                n == old(out)@.len(),
                HEADER_SIZE + payloads(secs).len() <= n,
                h.len() <= HEADER_SIZE_MAX,
                offset == HEADER_SIZE + payloads(secs.take(i as int)).len(),
                forall|j: int| 0 <= j < h.len() ==> out@[j] == h[j],
                forall|j: int|
                    HEADER_SIZE <= j < offset ==> out@[j] == payloads(secs)[j - HEADER_SIZE],
                forall|j: int| h.len() <= j < HEADER_SIZE ==> out@[j] == old(out)@[j],
                forall|j: int| offset <= j < n ==> out@[j] == old(out)@[j],
            decreases self.images@.len() - i,
        {
            let data = self.images[i].data;
            proof {
                lemma_payloads_prefix(secs, i + 1);
                assert(secs.take(i + 1).drop_last() =~= secs.take(i as int));
                lemma_payloads_prefix_of(secs, i + 1);
            }
            let mut k: usize = 0;
            while k < data.len()
                invariant
                    k <= data@.len(),
                    data@ == secs[i as int].data,
                    n == out@.len(),
                    offset + data@.len() <= n,
                    offset == HEADER_SIZE + payloads(secs.take(i as int)).len(),
                    payloads(secs.take(i + 1)) == payloads(secs.take(i as int)) + data@,
                    payloads(secs.take(i + 1)).len() <= payloads(secs).len(),
                    payloads(secs).take(payloads(secs.take(i + 1)).len() as int) == payloads(
                        secs.take(i + 1),
                    ),
                    forall|j: int| 0 <= j < h.len() ==> out@[j] == h[j],
                    h.len() <= HEADER_SIZE_MAX,
                    forall|j: int|
                        HEADER_SIZE <= j < offset + k ==> out@[j] == payloads(secs)[j
                            - HEADER_SIZE],
                    forall|j: int| h.len() <= j < HEADER_SIZE ==> out@[j] == old(out)@[j],
                    forall|j: int| offset + k <= j < n ==> out@[j] == old(out)@[j],
                decreases data@.len() - k,
            {
                proof {
                    let pj = (offset + k - HEADER_SIZE) as int;
                    let a = payloads(secs.take(i as int));
                    assert(pj == a.len() + k);
                    assert(payloads(secs.take(i + 1))[pj] == data@[k as int]);
                    assert(payloads(secs)[pj] == payloads(secs).take(
                        payloads(secs.take(i + 1)).len() as int,
                    )[pj]);
                }
                out[offset + k] = data[k];
                k = k + 1;
            }
            offset = offset + data.len();
            i = i + 1;
        }
        assert(secs.take(i as int) =~= secs);
        assert(out@ =~= packed_image(secs, old(out)@));
    }
}

proof fn lemma_payloads_prefix(secs: Seq<PackedSection>, i: int)
    requires
        0 < i <= secs.len(),
    ensures
        payloads(secs.take(i)) == payloads(secs.take(i - 1)) + secs[i - 1].data,
        payloads(secs.take(i)).len() <= payloads(secs).len(),
    decreases secs.len() - i,
{
    assert(secs.take(i).drop_last() =~= secs.take(i - 1));
    if i < secs.len() {
        lemma_payloads_prefix(secs, i + 1);
    } else {
        assert(secs.take(i) =~= secs);
    }
}

proof fn lemma_payloads_prefix_of(secs: Seq<PackedSection>, i: int)
    requires
        0 <= i <= secs.len(),
    ensures
        payloads(secs).take(payloads(secs.take(i)).len() as int) == payloads(secs.take(i)),
    decreases secs.len() - i,
{
    if i < secs.len() {
        lemma_payloads_prefix_of(secs, i + 1);
        lemma_payloads_prefix(secs, i + 1);
        let a = payloads(secs.take(i));
        let b = payloads(secs.take(i + 1));
        assert(b.take(a.len() as int) =~= a);
        assert(payloads(secs).take(a.len() as int) =~= payloads(secs).take(b.len() as int).take(
            a.len() as int,
        ));
    } else {
        assert(secs.take(i) =~= secs);
        assert(payloads(secs).take(payloads(secs).len() as int) =~= payloads(secs));
    }
}

/// Appends `hex_bytes(b)`.
fn push_hex_bytes(out: &mut Vec<char>, b: &[u8; 16])
    ensures
        final(out)@ == old(out)@ + hex_bytes(b@),
{
    let mut i: usize = 0;
    while i < 16
        invariant
            i <= 16,
            out@ == old(out)@ + hex_bytes(b@.take(i as int)),
        decreases 16 - i,
    {
        push_hex_fixed(out, b[i] as u64, 2);
        assert(b@.take(i + 1).drop_last() =~= b@.take(i as int));
        i = i + 1;
    }
    assert(b@.take(16) =~= b@);
}

} // verus!

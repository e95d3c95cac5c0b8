//! Reading back a packed OTA image: the header that the packer writes lists exactly the
//! sections it was given, and the extractor finds them with their payloads and checks.
use vstd::prelude::*;
use vstd::utf8::*;
use crate::md5::{md5_hex_value, nibble};
use crate::crc::spec_xor_crc;
use crate::md5::md5_digest;
use crate::ota::{
    apply_field, apply_global, block_fields, crc_mismatch, default_fields, fold_fields, fold_globals,
    header_bytes, header_globals, header_text, md5_mismatch, ota_parse_defined, ota_scan,
    first_section_failure, packet_mismatch, scan, section_data, slot_matches, OtaImageSection, u32_or_zero, Scan, SpecFields,
    BLOCK_SIZE, HEADER_SIZE, MAX_IMAGES,
};
use crate::ota_packer::{
    header_block, header_blocks, header_text_of, hex_bytes, packed_image, payloads, PackedSection,
    HEADER_SIZE_MAX,
};
use crate::text::{
    all_digits, contains_sub, dec_chars, find_char, find_sub, find_sub_from, is_digit, is_ws,
    digit_char, hex_char, hex_fixed, key_value, lemma_dec_chars, lemma_find_char, lemma_lines_concat, lemma_lines_line, lemma_parse_unsigned_dec, lines, strip_cr, parse_unsigned, lemma_find_char_from_facts, lemma_find_sub, lemma_trim_id,
    lemma_trim_shape, no_char, occurs_at, split_sep, trim,
};

verus! {

/// The separator between header blocks.
pub open spec fn blank_sep() -> Seq<char> {
    seq!['\n', '\n']
}

/// `s` holds no two line feeds in a row.
pub open spec fn no_blank(s: Seq<char>) -> bool {
    forall|i: int| 0 <= i < s.len() - 1 ==> !(#[trigger] s[i] == '\n' && s[i + 1] == '\n')
}

proof fn lemma_no_blank_of_no_newline(s: Seq<char>)
    requires
        no_char(s, '\n'),
    ensures
        no_blank(s),
{
}

/// Joining two texts without blank lines by one line feed makes none, when neither side
/// has a line feed next to it.
proof fn lemma_no_blank_join(a: Seq<char>, b: Seq<char>)
    requires
        no_blank(a),
        no_blank(b),
        a.len() == 0 || a.last() != '\n',
        b.len() == 0 || b[0] != '\n',
    ensures
        no_blank(a + seq!['\n'] + b),
{
    let s = a + seq!['\n'] + b;
    assert forall|i: int| 0 <= i < s.len() - 1 implies !(#[trigger] s[i] == '\n' && s[i + 1] == '\n') by {
        if i < a.len() - 1 {
            assert(s[i] == a[i] && s[i + 1] == a[i + 1]);
        } else if i == a.len() - 1 {
            assert(s[i] == a.last());
        } else if i == a.len() {
            assert(s[i + 1] == b[0]);
        } else {
            assert(s[i] == b[i - a.len() - 1] && s[i + 1] == b[i - a.len()]);
        }
    }
}

/// The search finds the first occurrence.
proof fn lemma_find_sub_at(s: Seq<char>, sub: Seq<char>, from: int, j: int)
    requires
        0 <= from <= j,
        occurs_at(s, sub, j),
        forall|i: int| from <= i < j ==> !occurs_at(s, sub, i),
    ensures
        find_sub_from(s, sub, from) == Some(j),
    decreases j - from,
{
    if from < j {
        lemma_find_sub_at(s, sub, from + 1, j);
    }
}

/// No occurrence from `from` on: the search finds nothing.
proof fn lemma_find_sub_none(s: Seq<char>, sub: Seq<char>, from: int)
    requires
        0 <= from,
        forall|i: int| from <= i ==> !occurs_at(s, sub, i),
    ensures
        find_sub_from(s, sub, from) is None,
    decreases s.len() + 1 - from,
{
    if from + sub.len() <= s.len() {
        lemma_find_sub_none(s, sub, from + 1);
    }
}

/// An occurrence from `from` on: the search finds one.
proof fn lemma_find_sub_some(s: Seq<char>, sub: Seq<char>, from: int, j: int)
    requires
        0 <= from <= j,
        occurs_at(s, sub, j),
    ensures
        find_sub_from(s, sub, from) is Some,
    decreases j - from,
{
    if from < j && !occurs_at(s, sub, from) {
        lemma_find_sub_some(s, sub, from + 1, j);
    }
}

/// A text holds no `sub` when it lacks one of `sub`'s characters.
proof fn lemma_absent_char(s: Seq<char>, sub: Seq<char>, p: int)
    requires
        0 <= p < sub.len(),
        no_char(s, sub[p]),
    ensures
        !contains_sub(s, sub),
{
    lemma_find_sub(s, sub);
    if find_sub(s, sub) is Some {
        let i = find_sub(s, sub)->0;
        assert(s.subrange(i, i + sub.len())[p] == s[i + p]);
    }
}

/// Splitting at blank lines: the text before the first blank line comes first.
proof fn lemma_split_front(a: Seq<char>, b: Seq<char>)
    requires
        no_blank(a),
        a.len() == 0 || a.last() != '\n',
    ensures
        split_sep(a + blank_sep() + b, blank_sep()) == seq![a] + split_sep(b, blank_sep()),
{
    let s = a + blank_sep() + b;
    let sep = blank_sep();
    assert(s.subrange(a.len() as int, a.len() as int + 2) =~= sep);
    assert forall|i: int| 0 <= i < a.len() implies !occurs_at(s, sep, i) by {
        if occurs_at(s, sep, i) {
            assert(s.subrange(i, i + 2)[0] == s[i]);
            assert(s.subrange(i, i + 2)[1] == s[i + 1]);
            if i < a.len() - 1 {
                assert(s[i] == a[i] && s[i + 1] == a[i + 1]);
            } else {
                assert(s[i] == a.last());
            }
        }
    }
    lemma_find_sub_at(s, sep, 0, a.len() as int);
    assert(s.take(a.len() as int) =~= a);
    assert(s.skip(a.len() as int + 2) =~= b);
}

/// A text without blank lines is one piece.
proof fn lemma_split_last(t: Seq<char>)
    requires
        no_blank(t),
    ensures
        split_sep(t, blank_sep()) == seq![t],
{
    let sep = blank_sep();
    assert forall|i: int| 0 <= i implies !occurs_at(t, sep, i) by {
        if occurs_at(t, sep, i) {
            assert(t.subrange(i, i + 2)[0] == t[i]);
            assert(t.subrange(i, i + 2)[1] == t[i + 1]);
        }
    }
    lemma_find_sub_none(t, sep, 0);
}

/// A value that one header line holds and gives back unchanged: no line feed and no
/// whitespace at either end.
pub open spec fn clean_field(s: Seq<char>) -> bool {
    no_char(s, '\n') && trim(s) == s
}

/// A key of a header line: not empty, no `=`, no line feed, no whitespace at its ends.
pub open spec fn clean_key(k: Seq<char>) -> bool {
    &&& k.len() > 0
    &&& no_char(k, '=')
    &&& no_char(k, '\n')
    &&& !is_ws(k[0])
    &&& !is_ws(k.last())
}

/// The line `k=v` reads back as key `k` and value `v`.
proof fn lemma_key_line(k: Seq<char>, v: Seq<char>)
    requires
        clean_key(k),
        clean_field(v),
    ensures
        trim(k + seq!['='] + v) == k + seq!['='] + v,
        key_value(k + seq!['='] + v) == Some((k, v)),
        no_char(k + seq!['='] + v, '\n'),
        (k + seq!['='] + v).len() > 0,
        !is_ws((k + seq!['='] + v).last()),
{
    let l = k + seq!['='] + v;
    lemma_trim_shape(v, '\n');
    if v.len() > 0 {
        assert(l.last() == v.last());
    } else {
        assert(l.last() == '=');
    }
    assert(l[0] == k[0]);
    lemma_trim_id(l);
    lemma_find_char_from_facts(l, '=', k.len() as int);
    assert(l.take(k.len() as int) =~= k);
    assert(l.skip(k.len() as int + 1) =~= v);
    lemma_trim_id(k);
    assert forall|i: int| 0 <= i < l.len() implies l[i] != '\n' by {
        if i < k.len() {
            assert(l[i] == k[i]);
        } else if i > k.len() {
            assert(l[i] == v[i - k.len() - 1]);
        }
    }
}

/// Decimal digits are a clean value.
proof fn lemma_dec_clean(n: nat)
    ensures
        clean_field(dec_chars(n)),
        dec_chars(n).len() > 0,
{
    lemma_dec_chars(n);
    let d = dec_chars(n);
    assert(is_digit(d[0]) && is_digit(d.last()));
    lemma_trim_id(d);
    assert forall|i: int| 0 <= i < d.len() implies d[i] != '\n' by {
        assert(is_digit(d[i]));
    }
}

/// Two lowercase hexadecimal digits per byte, high digit first.
proof fn lemma_hex_bytes(b: Seq<u8>)
    ensures
        hex_bytes(b).len() == 2 * b.len(),
        forall|i: int|
            0 <= i < b.len() ==> hex_bytes(b)[2 * i] == hex_char(b[i] as int / 16) && hex_bytes(
                b,
            )[2 * i + 1] == hex_char(b[i] as int % 16),
    decreases b.len(),
{
    if b.len() > 0 {
        let p = b.drop_last();
        lemma_hex_bytes(p);
        let v = b.last() as nat;
        assert(hex_fixed(v, 2) == hex_fixed(v / 16, 1).push(hex_char((v % 16) as int)));
        assert(hex_fixed(v / 16, 1) == hex_fixed(v / 16 / 16, 0).push(hex_char(((v / 16) % 16) as int)));
        assert((v / 16) % 16 == v / 16);
        let h = hex_bytes(b);
        assert(h == hex_bytes(p) + hex_fixed(v, 2));
        assert forall|i: int| 0 <= i < b.len() implies h[2 * i] == hex_char(b[i] as int / 16)
            && h[2 * i + 1] == hex_char(b[i] as int % 16) by {
            if i < p.len() {
                assert(b[i] == p[i]);
            } else {
                assert(b[i] == b.last());
            }
        }
    }
}

/// A hexadecimal digit is a plain ASCII letter or digit.
proof fn lemma_hex_char(d: int)
    requires
        0 <= d < 16,
    ensures
        (hex_char(d) as u32) < 0x80,
        nibble(hex_char(d) as u8) == Some(d as u8),
        !is_ws(hex_char(d)),
        hex_char(d) != '\n',
        hex_char(d) != 'n',
        hex_char(d) != 'g',
{
    if d < 10 {
        assert(hex_char(d) == digit_char(d));
        assert((hex_char(d) as u32) == 0x30 + d);
    } else {
        assert((hex_char(d) as u32) == 0x61 + d - 10);
    }
}

/// The hexadecimal text of a byte sequence: ASCII, one line, no whitespace, and neither
/// `n` nor `g` in it.
proof fn lemma_hex_text(b: Seq<u8>)
    ensures
        is_ascii_chars(hex_bytes(b)),
        no_char(hex_bytes(b), '\n'),
        no_char(hex_bytes(b), 'n'),
        no_char(hex_bytes(b), 'g'),
        forall|i: int| 0 <= i < hex_bytes(b).len() ==> !is_ws(#[trigger] hex_bytes(b)[i]),
{
    lemma_hex_bytes(b);
    let h = hex_bytes(b);
    assert forall|j: int| 0 <= j < h.len() implies {
        &&& (h[j] as u32) < 0x80
        &&& '\0' <= h[j] <= '\u{7f}'
        &&& h[j] != '\n'
        &&& h[j] != 'n'
        &&& h[j] != 'g'
        &&& !is_ws(#[trigger] h[j])
    } by {
        let i = j / 2;
        if j % 2 == 0 {
            assert(j == 2 * i);
            lemma_hex_char(b[i] as int / 16);
        } else {
            assert(j == 2 * i + 1);
            lemma_hex_char(b[i] as int % 16);
        }
    }
}

/// The hexadecimal text of a 16-byte digest reads back as that digest.
proof fn lemma_md5_hex_roundtrip(d: Seq<u8>)
    requires
        d.len() == 16,
    ensures
        md5_hex_value(encode_utf8(hex_bytes(d))) == Some(d),
{
    lemma_hex_bytes(d);
    lemma_hex_text(d);
    let h = hex_bytes(d);
    is_ascii_chars_encode_utf8(h);
    let e = encode_utf8(h);
    assert forall|j: int| 0 <= j < 32 implies (#[trigger] nibble(e[j])) is Some by {
        let i = j / 2;
        assert(e[j] == h[j] as u8);
        if j % 2 == 0 {
            assert(j == 2 * i);
            lemma_hex_char(d[i] as int / 16);
        } else {
            assert(j == 2 * i + 1);
            lemma_hex_char(d[i] as int % 16);
        }
    }
    let v = Seq::new(16, |i: int| (nibble(e[2 * i])->0 * 16 + nibble(e[2 * i + 1])->0) as u8);
    assert forall|i: int| 0 <= i < 16 implies v[i] == d[i] by {
        assert(e[2 * i] == h[2 * i] as u8);
        assert(e[2 * i + 1] == h[2 * i + 1] as u8);
        lemma_hex_char(d[i] as int / 16);
        lemma_hex_char(d[i] as int % 16);
        assert((d[i] as int / 16) * 16 + d[i] as int % 16 == d[i]);
    }
    assert(v =~= d);
}

/// The line `k=v`.
pub open spec fn kv_line(k: Seq<char>, v: Seq<char>) -> Seq<char> {
    k + seq!['='] + v
}

/// The lines of a section's header block.
pub open spec fn block_lines(s: PackedSection) -> Seq<Seq<char>> {
    seq![
        kv_line("img_type"@, s.img_type),
        kv_line("img_name"@, s.img_name),
        kv_line("img_size"@, dec_chars(s.data.len())),
        kv_line("img_md5"@, hex_bytes(md5_digest(s.data)@)),
        kv_line("img_crc"@, dec_chars(spec_xor_crc(s.data, BLOCK_SIZE as nat) as nat)),
    ]
}

/// The text of a section's header block, without the blank line after it.
pub open spec fn block_text(s: PackedSection) -> Seq<char> {
    let l = block_lines(s);
    l[0] + seq!['\n'] + l[1] + seq!['\n'] + l[2] + seq!['\n'] + l[3] + seq!['\n'] + l[4]
}

/// The fields a section's header block states.
pub open spec fn section_fields(s: PackedSection) -> SpecFields {
    SpecFields {
        name: s.img_name,
        ty: s.img_type,
        size: s.data.len() as u32,
        md5: hex_bytes(md5_digest(s.data)@),
        crc: spec_xor_crc(s.data, BLOCK_SIZE as nat),
    }
}

/// A section whose header block reads back as it was written.
pub open spec fn clean_section(s: PackedSection) -> bool {
    clean_field(s.img_type) && clean_field(s.img_name) && s.data.len() <= u32::MAX
}

/// The lines of a text ended by a line feed, followed by more text.
proof fn lemma_lines_cons(l: Seq<char>, rest: Seq<char>)
    requires
        no_char(l, '\n'),
        l.len() > 0,
        !is_ws(l.last()),
    ensures
        lines(l + seq!['\n'] + rest) == seq![l] + lines(rest),
{
    lemma_lines_concat(l + seq!['\n'], rest);
    lemma_lines_line(l);
    assert(strip_cr(l) == l);
}

/// One line without a line feed is its own only line.
proof fn lemma_lines_single(l: Seq<char>)
    requires
        no_char(l, '\n'),
        l.len() > 0,
    ensures
        lines(l) == seq![l],
{
    lemma_find_char_from_facts(l, '\n', l.len() as int);
}

/// Facts about the keys of a header block.
proof fn lemma_block_keys()
    ensures
        clean_key("img_type"@),
        clean_key("img_name"@),
        clean_key("img_size"@),
        clean_key("img_md5"@),
        clean_key("img_crc"@),
        "img_type"@ != "img_name"@,
        "img_size"@ != "img_name"@,
        "img_size"@ != "img_type"@,
        "img_md5"@ != "img_name"@,
        "img_md5"@ != "img_type"@,
        "img_md5"@ != "img_size"@,
        "img_crc"@ != "img_name"@,
        "img_crc"@ != "img_type"@,
        "img_crc"@ != "img_size"@,
        "img_crc"@ != "img_md5"@,
{
    reveal_strlit("img_type");
    reveal_strlit("img_name");
    reveal_strlit("img_size");
    reveal_strlit("img_md5");
    reveal_strlit("img_crc");
    assert("img_type"@[4] != "img_name"@[4]);
    assert("img_size"@[4] != "img_name"@[4]);
    assert("img_size"@[4] != "img_type"@[4]);
    assert("img_md5"@.len() != "img_name"@.len());
    assert("img_md5"@.len() != "img_type"@.len());
    assert("img_md5"@.len() != "img_size"@.len());
    assert("img_crc"@.len() != "img_name"@.len());
    assert("img_crc"@.len() != "img_type"@.len());
    assert("img_crc"@.len() != "img_size"@.len());
    assert("img_crc"@[4] != "img_md5"@[4]);
}

/// Folding five lines applies them in order.
proof fn lemma_fold5(l: Seq<Seq<char>>)
    requires
        l.len() == 5,
    ensures
        fold_fields(l) == apply_field(
            apply_field(
                apply_field(apply_field(apply_field(default_fields(), l[0]), l[1]), l[2]),
                l[3],
            ),
            l[4],
        ),
{
    assert(l.take(0) =~= Seq::<Seq<char>>::empty());
    assert(l.take(1).drop_last() =~= l.take(0) && l.take(1).last() == l[0]);
    assert(l.take(2).drop_last() =~= l.take(1) && l.take(2).last() == l[1]);
    assert(l.take(3).drop_last() =~= l.take(2) && l.take(3).last() == l[2]);
    assert(l.take(4).drop_last() =~= l.take(3) && l.take(4).last() == l[3]);
    assert(l.drop_last() =~= l.take(4));
    let f1 = apply_field(default_fields(), l[0]);
    let f2 = apply_field(f1, l[1]);
    let f3 = apply_field(f2, l[2]);
    let f4 = apply_field(f3, l[3]);
    assert(fold_fields(l.take(0)) == default_fields());
    assert(fold_fields(l.take(1)) == f1);
    assert(fold_fields(l.take(2)) == f2);
    assert(fold_fields(l.take(3)) == f3);
    assert(fold_fields(l.take(4)) == f4);
    assert(fold_fields(l) == apply_field(fold_fields(l.drop_last()), l.last()));
}

/// The values in a clean section's header block are clean.
proof fn lemma_block_values(s: PackedSection)
    requires
        clean_section(s),
    ensures
        clean_field(hex_bytes(md5_digest(s.data)@)),
        clean_field(dec_chars(s.data.len())),
        clean_field(dec_chars(spec_xor_crc(s.data, BLOCK_SIZE as nat) as nat)),
{
    let m = hex_bytes(md5_digest(s.data)@);
    lemma_dec_clean(s.data.len());
    lemma_dec_clean(spec_xor_crc(s.data, BLOCK_SIZE as nat) as nat);
    lemma_hex_bytes(md5_digest(s.data)@);
    lemma_hex_text(md5_digest(s.data)@);
    assert(m.len() == 32);
    assert(!is_ws(m[0]) && !is_ws(m[31]));
    lemma_trim_id(m);
}

#[verifier::spinoff_prover]
/// A clean section's header block states the section's fields.
proof fn lemma_block_fields(s: PackedSection)
    requires
        clean_section(s),
    ensures
        fold_fields(block_lines(s)) == section_fields(s),
{
    lemma_block_keys();
    lemma_block_values(s);
    let l = block_lines(s);
    let m = hex_bytes(md5_digest(s.data)@);
    let crc = spec_xor_crc(s.data, BLOCK_SIZE as nat);
    lemma_key_line("img_type"@, s.img_type);
    lemma_key_line("img_name"@, s.img_name);
    lemma_key_line("img_size"@, dec_chars(s.data.len()));
    lemma_key_line("img_md5"@, m);
    lemma_key_line("img_crc"@, dec_chars(crc as nat));
    lemma_fold5(l);
    let f0 = default_fields();
    let f1 = apply_field(f0, l[0]);
    assert(f1 == SpecFields { ty: s.img_type, ..f0 });
    let f2 = apply_field(f1, l[1]);
    assert(f2 == SpecFields { name: s.img_name, ..f1 });
    lemma_parse_unsigned_dec(s.data.len(), u32::MAX as int);
    let f3 = apply_field(f2, l[2]);
    assert(f3 == SpecFields { size: s.data.len() as u32, ..f2 });
    let f4 = apply_field(f3, l[3]);
    assert(f4 == SpecFields { md5: m, ..f3 });
    lemma_parse_unsigned_dec(crc as nat, u32::MAX as int);
    let f5 = apply_field(f4, l[4]);
    assert(f5 == SpecFields { crc: crc, ..f4 });
    assert(f5 =~= section_fields(s));
}

#[verifier::rlimit(40)]
#[verifier::spinoff_prover]
/// The lines of a clean section's header block, and its shape.
proof fn lemma_block_text(s: PackedSection)
    requires
        clean_section(s),
    ensures
        lines(block_text(s)) == block_lines(s),
        no_blank(block_text(s)),
        block_text(s).last() != '\n',
        contains_sub(block_text(s), "img_name"@),
{
    lemma_block_keys();
    lemma_block_values(s);
    let l = block_lines(s);
    let m = hex_bytes(md5_digest(s.data)@);
    let crc = spec_xor_crc(s.data, BLOCK_SIZE as nat);
    lemma_key_line("img_type"@, s.img_type);
    lemma_key_line("img_name"@, s.img_name);
    lemma_key_line("img_size"@, dec_chars(s.data.len()));
    lemma_key_line("img_md5"@, m);
    lemma_key_line("img_crc"@, dec_chars(crc as nat));
    let t4 = l[4];
    let t3 = l[3] + seq!['\n'] + t4;
    let t2 = l[2] + seq!['\n'] + t3;
    let t1 = l[1] + seq!['\n'] + t2;
    let t0 = l[0] + seq!['\n'] + t1;
    assert(block_text(s) =~= t0);
    lemma_lines_single(t4);
    lemma_lines_cons(l[3], t4);
    lemma_lines_cons(l[2], t3);
    lemma_lines_cons(l[1], t2);
    lemma_lines_cons(l[0], t1);
    assert(lines(t0) =~= l);
    lemma_no_blank_of_no_newline(t4);
    lemma_no_blank_of_no_newline(l[3]);
    lemma_no_blank_of_no_newline(l[2]);
    lemma_no_blank_of_no_newline(l[1]);
    lemma_no_blank_of_no_newline(l[0]);
    lemma_no_blank_join(l[3], t4);
    lemma_no_blank_join(l[2], t3);
    lemma_no_blank_join(l[1], t2);
    lemma_no_blank_join(l[0], t1);
    assert(t0.last() == t4.last());
    reveal_strlit("img_name");
    let at: int = l[0].len() as int + 1;
    assert(t0.subrange(at, at + 8) =~= "img_name"@);
    lemma_find_sub_some(t0, "img_name"@, 0, at);
}

/// A section's header block is its text followed by a blank line.
proof fn lemma_header_block(s: PackedSection)
    ensures
        header_block(s) == block_text(s) + blank_sep(),
{
    reveal_strlit("img_type=");
    reveal_strlit("\nimg_name=");
    reveal_strlit("\nimg_size=");
    reveal_strlit("\nimg_md5=");
    reveal_strlit("\nimg_crc=");
    reveal_strlit("\n\n");
    reveal_strlit("img_type");
    reveal_strlit("img_name");
    reveal_strlit("img_size");
    reveal_strlit("img_md5");
    reveal_strlit("img_crc");
    assert(header_block(s) =~= block_text(s) + blank_sep());
}

#[verifier::spinoff_prover]
/// The header blocks of a list of sections: the first one, then the rest.
proof fn lemma_header_blocks_front(secs: Seq<PackedSection>)
    requires
        secs.len() > 0,
    ensures
        header_blocks(secs) == header_block(secs[0]) + header_blocks(secs.drop_first()),
    decreases secs.len(),
{
    if secs.len() == 1 {
        assert(secs.drop_last() =~= Seq::<PackedSection>::empty());
        assert(secs.drop_first() =~= Seq::<PackedSection>::empty());
        assert(header_blocks(secs.drop_last()) =~= Seq::<char>::empty());
        assert(secs.last() == secs[0]);
        assert(header_blocks(secs) =~= header_block(secs[0]));
        assert(header_blocks(secs.drop_first()) =~= Seq::<char>::empty());
        assert(header_block(secs[0]) + header_blocks(secs.drop_first()) =~= header_block(secs[0]));
    } else {
        let p = secs.drop_last();
        lemma_header_blocks_front(p);
        assert(p.drop_first() =~= secs.drop_first().drop_last());
        assert(secs.drop_first().last() == secs.last());
        assert(p[0] == secs[0]);
        assert(header_blocks(secs) =~= header_block(secs[0]) + header_blocks(secs.drop_first()));
    }
}

/// The texts of the header blocks of `secs`.
pub open spec fn block_parts(secs: Seq<PackedSection>) -> Seq<Seq<char>> {
    Seq::new(secs.len(), |i: int| block_text(secs[i]))
}

#[verifier::spinoff_prover]
/// Splitting header blocks followed by more text at blank lines gives each block's text.
proof fn lemma_split_blocks(secs: Seq<PackedSection>, rest: Seq<char>)
    requires
        forall|i: int| 0 <= i < secs.len() ==> clean_section(#[trigger] secs[i]),
    ensures
        split_sep(header_blocks(secs) + rest, blank_sep()) == block_parts(secs) + split_sep(rest, blank_sep()),
    decreases secs.len(),
{
    if secs.len() == 0 {
        assert(header_blocks(secs) + rest =~= rest);
        assert(block_parts(secs) + split_sep(rest, blank_sep()) =~= split_sep(rest, blank_sep()));
    } else {
        let s0 = secs[0];
        let tail = secs.drop_first();
        assert forall|i: int| 0 <= i < tail.len() implies clean_section(#[trigger] tail[i]) by {
            assert(tail[i] == secs[i + 1]);
        }
        lemma_split_blocks(tail, rest);
        lemma_header_blocks_front(secs);
        lemma_header_block(s0);
        lemma_block_text(s0);
        let after = header_blocks(tail) + rest;
        assert(header_blocks(secs) + rest =~= block_text(s0) + blank_sep() + after);
        lemma_split_front(block_text(s0), after);
        assert(block_parts(secs) =~= seq![block_text(s0)] + block_parts(tail));
        assert(block_parts(secs) + split_sep(rest, blank_sep()) =~= seq![block_text(s0)] + (block_parts(tail)
            + split_sep(rest, blank_sep())));
    }
}

/// Where the payload of section `i` starts in a packed image.
pub open spec fn packed_offset(secs: Seq<PackedSection>, i: int) -> int {
    HEADER_SIZE + payloads(secs.take(i)).len()
}

/// The sections a packed image's header lists, with their payload offsets.
pub open spec fn expected_found(secs: Seq<PackedSection>) -> Seq<(SpecFields, int)> {
    Seq::new(secs.len(), |i: int| (section_fields(secs[i]), packed_offset(secs, i)))
}

/// The payloads of the first `i + 1` sections: those of the first `i`, then section `i`'s.
proof fn lemma_payloads_step(secs: Seq<PackedSection>, i: int)
    requires
        0 <= i < secs.len(),
    ensures
        payloads(secs.take(i + 1)) == payloads(secs.take(i)) + secs[i].data,
{
    assert(secs.take(i + 1).drop_last() =~= secs.take(i));
    assert(secs.take(i + 1).last() == secs[i]);
}

/// The payloads of the first `i` sections begin the payloads of all.
proof fn lemma_payloads_prefix(secs: Seq<PackedSection>, i: int)
    requires
        0 <= i <= secs.len(),
    ensures
        payloads(secs.take(i)).len() <= payloads(secs).len(),
        payloads(secs).take(payloads(secs.take(i)).len() as int) == payloads(secs.take(i)),
    decreases secs.len() - i,
{
    if i == secs.len() {
        assert(secs.take(i) =~= secs);
        assert(payloads(secs).take(payloads(secs).len() as int) =~= payloads(secs));
    } else {
        lemma_payloads_prefix(secs, i + 1);
        lemma_payloads_step(secs, i);
        let a = payloads(secs.take(i));
        let b = payloads(secs.take(i + 1));
        assert(b.take(a.len() as int) =~= a);
        assert(payloads(secs).take(a.len() as int) =~= b.take(a.len() as int));
    }
}

#[verifier::spinoff_prover]
/// Walking the block texts from section `i` on, then one text without a name key, finds
/// the sections from `i` on at their packed offsets.
proof fn lemma_scan_blocks(secs: Seq<PackedSection>, i: int, tail: Seq<char>, buf_len: int)
    requires
        0 <= i <= secs.len() <= MAX_IMAGES,
        forall|k: int| 0 <= k < secs.len() ==> clean_section(#[trigger] secs[k]),
        HEADER_SIZE + payloads(secs).len() <= buf_len,
        !contains_sub(tail, "img_name"@),
    ensures
        scan(block_parts(secs).skip(i) + seq![tail], buf_len, MAX_IMAGES as int, packed_offset(secs, i), i)
            == (Scan {
            found: expected_found(secs).skip(i),
            end: packed_offset(secs, secs.len() as int),
            aborted: false,
        }),
    decreases secs.len() - i,
{
    let parts = block_parts(secs).skip(i) + seq![tail];
    let n = secs.len() as int;
    if i == n {
        assert(parts =~= seq![tail]);
        assert(parts.drop_first() =~= Seq::<Seq<char>>::empty());
        assert(expected_found(secs).skip(i) =~= Seq::<(SpecFields, int)>::empty());
        assert(scan(parts.drop_first(), buf_len, MAX_IMAGES as int, packed_offset(secs, i), i) == (Scan {
            found: seq![],
            end: packed_offset(secs, i),
            aborted: false,
        }));
    } else {
        lemma_scan_blocks(secs, i + 1, tail, buf_len);
        lemma_block_text(secs[i]);
        lemma_block_fields(secs[i]);
        lemma_payloads_step(secs, i);
        lemma_payloads_prefix(secs, i + 1);
        assert(parts[0] == block_text(secs[i]));
        assert(parts.drop_first() =~= block_parts(secs).skip(i + 1) + seq![tail]);
        assert(block_fields(block_text(secs[i])) == section_fields(secs[i]));
        assert(packed_offset(secs, i) + section_fields(secs[i]).size == packed_offset(secs, i + 1));
        assert(expected_found(secs).skip(i) =~= seq![(section_fields(secs[i]), packed_offset(secs, i))]
            + expected_found(secs).skip(i + 1));
        assert(secs[i].data.len() <= u32::MAX);
        assert(section_fields(secs[i]).size == secs[i].data.len());
        assert(packed_offset(secs, i + 1) <= buf_len);
        assert(contains_sub(parts[0], "img_name"@));
        assert(i < MAX_IMAGES);
        let rest = scan(parts.drop_first(), buf_len, MAX_IMAGES as int, packed_offset(secs, i + 1), i + 1);
        assert(scan(parts, buf_len, MAX_IMAGES as int, packed_offset(secs, i), i) == (Scan {
            found: seq![(section_fields(secs[i]), packed_offset(secs, i))] + rest.found,
            end: rest.end,
            aborted: rest.aborted,
        }));
    }
}

/// `k` NUL characters.
pub open spec fn nuls(k: nat) -> Seq<char> {
    Seq::new(k, |i: int| '\0')
}

/// The digest line's value: the whole-image digest of the payloads, in hexadecimal.
pub open spec fn packet_hex(secs: Seq<PackedSection>) -> Seq<char> {
    hex_bytes(md5_digest(payloads(secs))@)
}

/// The three lines after the header blocks.
pub open spec fn tail_lines(secs: Seq<PackedSection>) -> Seq<Seq<char>> {
    seq![
        "check_img=1"@,
        kv_line("bs_size"@, dec_chars(BLOCK_SIZE as nat)),
        kv_line("ota_img_packet_md5"@, packet_hex(secs)),
    ]
}

/// The text after the header blocks, with the NULs that fill the header area.
pub open spec fn tail_text(secs: Seq<PackedSection>, k: nat) -> Seq<char> {
    let t = tail_lines(secs);
    t[0] + seq!['\n'] + t[1] + seq!['\n'] + t[2] + seq!['\n'] + nuls(k)
}

/// The header text: the version line, a blank line, the blocks, and the tail.
proof fn lemma_header_text(secs: Seq<PackedSection>, k: nat)
    ensures
        header_text_of(secs) + nuls(k) == "ota_version=0"@ + blank_sep() + (header_blocks(secs)
            + tail_text(secs, k)),
{
    reveal_strlit("ota_version=0\n\n");
    reveal_strlit("ota_version=0");
    reveal_strlit("check_img=1\n");
    reveal_strlit("check_img=1");
    reveal_strlit("bs_size=");
    reveal_strlit("bs_size");
    reveal_strlit("\nota_img_packet_md5=");
    reveal_strlit("ota_img_packet_md5");
    reveal_strlit("\n");
    assert(header_text_of(secs) + nuls(k) =~= "ota_version=0"@ + blank_sep() + (header_blocks(secs)
        + tail_text(secs, k)));
}

proof fn lemma_no_char_cat(a: Seq<char>, b: Seq<char>, c: char)
    requires
        no_char(a, c),
        no_char(b, c),
    ensures
        no_char(a + b, c),
{
    assert forall|i: int| 0 <= i < (a + b).len() implies (a + b)[i] != c by {
        if i < a.len() {
            assert((a + b)[i] == a[i]);
        } else {
            assert((a + b)[i] == b[i - a.len()]);
        }
    }
}

#[verifier::spinoff_prover]
/// Facts about the tail lines.
proof fn lemma_tail_lines(secs: Seq<PackedSection>)
    ensures
        forall|j: int| 0 <= j < 3 ==> no_char(#[trigger] tail_lines(secs)[j], '\n'),
        forall|j: int| 0 <= j < 3 ==> no_char(#[trigger] tail_lines(secs)[j], 'n'),
        forall|j: int|
            0 <= j < 3 ==> (#[trigger] tail_lines(secs)[j]).len() > 0 && !is_ws(tail_lines(secs)[j].last()),
        key_value(tail_lines(secs)[0]) == Some(("check_img"@, seq!['1'])),
        key_value(tail_lines(secs)[1]) == Some(("bs_size"@, dec_chars(BLOCK_SIZE as nat))),
        key_value(tail_lines(secs)[2]) == Some(("ota_img_packet_md5"@, packet_hex(secs))),
        trim(tail_lines(secs)[0]) == tail_lines(secs)[0],
        trim(tail_lines(secs)[1]) == tail_lines(secs)[1],
        trim(tail_lines(secs)[2]) == tail_lines(secs)[2],
{
    reveal_strlit("check_img=1");
    reveal_strlit("check_img");
    reveal_strlit("bs_size");
    reveal_strlit("ota_img_packet_md5");
    let t = tail_lines(secs);
    let h = packet_hex(secs);
    lemma_dec_clean(BLOCK_SIZE as nat);
    lemma_dec_chars(BLOCK_SIZE as nat);
    lemma_hex_bytes(md5_digest(payloads(secs))@);
    lemma_hex_text(md5_digest(payloads(secs))@);
    assert(h.len() == 32);
    assert(!is_ws(h[0]) && !is_ws(h[31]));
    lemma_trim_id(h);
    assert(clean_key("bs_size"@));
    assert(clean_key("ota_img_packet_md5"@));
    lemma_key_line("bs_size"@, dec_chars(BLOCK_SIZE as nat));
    lemma_key_line("ota_img_packet_md5"@, h);
    // the first line
    let c = "check_img"@;
    assert(t[0] =~= c + seq!['='] + seq!['1']);
    assert(clean_key(c));
    assert(seq!['1'][0] == '1');
    lemma_trim_id(seq!['1']);
    lemma_key_line(c, seq!['1']);
    // no `n`
    assert(no_char(t[0], 'n'));
    let d = dec_chars(BLOCK_SIZE as nat);
    assert forall|i: int| 0 <= i < d.len() implies d[i] != 'n' by {
        assert(is_digit(d[i]));
    }
    lemma_no_char_cat("bs_size"@ + seq!['='], d, 'n');
    lemma_no_char_cat("ota_img_packet_md5"@ + seq!['='], h, 'n');
}

#[verifier::spinoff_prover]
/// The tail holds no blank line and no `n`, and its lines are the tail lines and the NULs.
proof fn lemma_tail_text(secs: Seq<PackedSection>, k: nat)
    requires
        k > 0,
    ensures
        no_blank(tail_text(secs, k)),
        !contains_sub(tail_text(secs, k), "img_name"@),
        lines(tail_text(secs, k)) == tail_lines(secs) + seq![nuls(k)],
        tail_text(secs, k)[0] != '\n',
{
    lemma_tail_lines(secs);
    let t = tail_lines(secs);
    let z = nuls(k);
    assert(z[0] == '\0');
    assert(no_char(z, '\n'));
    assert(no_char(z, 'n'));
    let x2 = t[2] + seq!['\n'] + z;
    let x1 = t[1] + seq!['\n'] + x2;
    let x0 = t[0] + seq!['\n'] + x1;
    assert(tail_text(secs, k) =~= x0);
    lemma_no_blank_of_no_newline(z);
    lemma_no_blank_of_no_newline(t[2]);
    lemma_no_blank_of_no_newline(t[1]);
    lemma_no_blank_of_no_newline(t[0]);
    lemma_no_blank_join(t[2], z);
    lemma_no_blank_join(t[1], x2);
    lemma_no_blank_join(t[0], x1);
    lemma_no_char_cat(t[2] + seq!['\n'], z, 'n');
    lemma_no_char_cat(t[1] + seq!['\n'], x2, 'n');
    lemma_no_char_cat(t[0] + seq!['\n'], x1, 'n');
    lemma_no_char_cat(t[2], seq!['\n'], 'n');
    lemma_no_char_cat(t[1], seq!['\n'], 'n');
    lemma_no_char_cat(t[0], seq!['\n'], 'n');
    reveal_strlit("img_name");
    assert("img_name"@[4] == 'n');
    lemma_absent_char(x0, "img_name"@, 4);
    lemma_lines_single(z);
    lemma_lines_cons(t[2], z);
    lemma_lines_cons(t[1], x2);
    lemma_lines_cons(t[0], x1);
    assert(lines(x0) =~= t + seq![z]);
    assert(x0[0] == t[0][0]);
    reveal_strlit("check_img=1");
}

/// UTF-8 of a concatenation is the concatenation of the UTF-8.
proof fn lemma_encode_concat(a: Seq<char>, b: Seq<char>)
    ensures
        encode_utf8(a + b) == encode_utf8(a) + encode_utf8(b),
    decreases a.len(),
{
    if a.len() == 0 {
        assert(a + b =~= b);
        assert(encode_utf8(a) + encode_utf8(b) =~= encode_utf8(b));
    } else {
        lemma_encode_concat(a.drop_first(), b);
        assert((a + b).drop_first() =~= a.drop_first() + b);
        assert((a + b)[0] == a[0]);
        assert(encode_utf8(a + b) =~= encode_utf8(a) + encode_utf8(b));
    }
}

#[verifier::spinoff_prover]
/// The header values: the block size and digest lines come last, so whatever the lines
/// before them say, the block size and the whole-image digest are the packer's.
proof fn lemma_globals(secs: Seq<PackedSection>, before: Seq<Seq<char>>, k: nat)
    requires
        k > 0,
    ensures
        fold_globals(before + tail_lines(secs) + seq![nuls(k)]) == (BLOCK_SIZE as nat, Some(
            packet_hex(secs),
        )),
{
    lemma_tail_lines(secs);
    reveal_strlit("check_img");
    reveal_strlit("bs_size");
    reveal_strlit("ota_img_packet_md5");
    let t = tail_lines(secs);
    let z = nuls(k);
    let x = before + t + seq![z];
    assert(x.drop_last() =~= before + t);
    assert((before + t).drop_last() =~= before + seq![t[0], t[1]]);
    assert((before + seq![t[0], t[1]]).drop_last() =~= before + seq![t[0]]);
    assert((before + seq![t[0]]).drop_last() =~= before);
    let g0 = fold_globals(before);
    assert("check_img"@.len() != "bs_size"@.len());
    assert("check_img"@.len() != "ota_img_packet_md5"@.len());
    assert("bs_size"@.len() != "ota_img_packet_md5"@.len());
    let g1 = apply_global(g0, t[0]);
    assert(g1 == g0);
    lemma_parse_unsigned_dec(BLOCK_SIZE as nat, usize::MAX as int);
    let g2 = apply_global(g1, t[1]);
    assert(g2 == (BLOCK_SIZE as nat, g0.1));
    let g3 = apply_global(g2, t[2]);
    assert(g3 == (BLOCK_SIZE as nat, Some(packet_hex(secs))));
    assert(z[0] == '\0');
    assert(!is_ws(z[0]) && !is_ws(z.last()));
    lemma_trim_id(z);
    lemma_find_char_from_facts(z, '=', z.len() as int);
    assert(key_value(z) is None);
    assert(apply_global(g3, z) == g3);
    assert(fold_globals(before + seq![t[0]]) == g1);
    assert(fold_globals(before + seq![t[0], t[1]]) == g2);
    assert(fold_globals(before + t) == g3);
}

#[verifier::spinoff_prover]
/// The text of a packed image's header area: the header text, then NULs.
proof fn lemma_header_area(secs: Seq<PackedSection>, out: Seq<u8>)
    requires
        encode_utf8(header_text_of(secs)).len() <= HEADER_SIZE_MAX,
        HEADER_SIZE <= out.len(),
        forall|i: int|
            encode_utf8(header_text_of(secs)).len() <= i < HEADER_SIZE ==> #[trigger] out[i] == 0,
    ensures
        valid_utf8(header_bytes(packed_image(secs, out))),
        header_text(packed_image(secs, out)) == header_text_of(secs) + nuls(
            (HEADER_SIZE - encode_utf8(header_text_of(secs)).len()) as nat,
        ),
{
    let t = header_text_of(secs);
    let h = encode_utf8(t);
    let k = (HEADER_SIZE - h.len()) as nat;
    let z = nuls(k);
    let buf = packed_image(secs, out);
    assert forall|i: int| 0 <= i < z.len() implies '\0' <= #[trigger] z[i] <= '\u{7f}' by {}
    assert(is_ascii_chars(z));
    is_ascii_chars_encode_utf8(z);
    let ez = encode_utf8(z);
    lemma_encode_concat(t, z);
    assert forall|i: int| 0 <= i < HEADER_SIZE implies #[trigger] buf.take(HEADER_SIZE as int)[i] == (h
        + ez)[i] by {
        if i >= h.len() {
            assert(ez[i - h.len()] == z[i - h.len()] as u8);
        }
    }
    assert(header_bytes(buf) =~= encode_utf8(t + z));
    encode_utf8_valid_utf8(t + z);
    encode_utf8_decode_utf8(t + z);
}

#[verifier::spinoff_prover]
#[verifier::rlimit(60)]
/// **Law: a packed image reads back.** Packing up to `MAX_IMAGES` sections, each with a
/// one-line type and name without surrounding whitespace and at most 4 GiB of data,
/// into an image whose header area is zeroed past the header gives an image whose
/// header the extractor reads as exactly those sections, in order, with their type,
/// name, size, digest text and CRC, at consecutive payload offsets after the header;
/// each payload is the section's data, and neither its CRC, its MD5 nor the
/// whole-image MD5 mismatches.
pub proof fn lemma_packed_image_reads_back(secs: Seq<PackedSection>, out: Seq<u8>)
    requires
        secs.len() <= MAX_IMAGES,
        forall|i: int| 0 <= i < secs.len() ==> clean_section(#[trigger] secs[i]),
        encode_utf8(header_text_of(secs)).len() <= HEADER_SIZE_MAX,
        HEADER_SIZE + payloads(secs).len() <= out.len(),
        forall|i: int|
            encode_utf8(header_text_of(secs)).len() <= i < HEADER_SIZE ==> #[trigger] out[i] == 0,
    ensures
        ({
            let buf = packed_image(secs, out);
            &&& valid_utf8(header_bytes(buf))
            &&& header_globals(header_text(buf)) == (BLOCK_SIZE as nat, Some(packet_hex(secs)))
            &&& ota_scan(buf, MAX_IMAGES as int) == (Scan {
                found: expected_found(secs),
                end: HEADER_SIZE + payloads(secs).len(),
                aborted: false,
            })
            &&& forall|i: int|
                0 <= i < secs.len() ==> {
                    &&& section_data(buf, section_fields(secs[i]), packed_offset(secs, i))
                        == (#[trigger] secs[i]).data
                    &&& !crc_mismatch(
                        buf,
                        section_fields(secs[i]),
                        packed_offset(secs, i),
                        BLOCK_SIZE as nat,
                    )
                    &&& !md5_mismatch(buf, section_fields(secs[i]), packed_offset(secs, i))
                }
            &&& !packet_mismatch(buf, MAX_IMAGES as int)
            &&& ota_parse_defined(buf, MAX_IMAGES as int)
        }),
{
    let buf = packed_image(secs, out);
    let t = header_text_of(secs);
    let h = encode_utf8(t);
    let k = (HEADER_SIZE - h.len()) as nat;
    let p = payloads(secs);
    lemma_header_area(secs, out);
    let text = t + nuls(k);
    assert(header_text(buf) == text);
    // the pieces of the header
    let p0 = "ota_version=0"@;
    let tail = tail_text(secs, k);
    let blocks = header_blocks(secs);
    lemma_header_text(secs, k);
    lemma_tail_text(secs, k);
    reveal_strlit("ota_version=0");
    assert(no_char(p0, '\n'));
    lemma_no_blank_of_no_newline(p0);
    lemma_split_front(p0, blocks + tail);
    lemma_split_blocks(secs, tail);
    lemma_split_last(tail);
    reveal_strlit("\n\n");
    assert("\n\n"@ =~= blank_sep());
    let parts = split_sep(text, blank_sep());
    assert(parts == seq![p0] + (block_parts(secs) + seq![tail]));
    // the walk over the blocks
    reveal_strlit("img_name");
    assert("img_name"@[2] == 'g');
    assert(no_char(p0, 'g'));
    lemma_absent_char(p0, "img_name"@, 2);
    assert(parts.drop_first() =~= block_parts(secs).skip(0) + seq![tail]);
    assert(secs.take(0) =~= Seq::<PackedSection>::empty());
    assert(packed_offset(secs, 0) == HEADER_SIZE);
    assert(secs.take(secs.len() as int) =~= secs);
    lemma_scan_blocks(secs, 0, tail, out.len() as int);
    assert(expected_found(secs).skip(0) =~= expected_found(secs));
    assert(ota_scan(buf, MAX_IMAGES as int) == (Scan {
        found: expected_found(secs),
        end: HEADER_SIZE + p.len(),
        aborted: false,
    }));
    // the header values
    let pre = p0 + blank_sep() + blocks;
    assert(text =~= pre + tail);
    if secs.len() > 0 {
        lemma_header_blocks_front(secs);
        assert(blocks.len() > 0);
        assert(blocks == header_blocks(secs.drop_last()) + header_block(secs.last()));
        lemma_header_block(secs.last());
        assert(pre.last() == blocks.last());
    } else {
        assert(blocks =~= Seq::<char>::empty());
        assert(pre.last() == '\n');
    }
    lemma_lines_concat(pre, tail);
    lemma_globals(secs, lines(pre), k);
    assert(lines(text) == lines(pre) + tail_lines(secs) + seq![nuls(k)]);
    // the payloads
    assert(h.len() < HEADER_SIZE);
    assert forall|j: int| 0 <= j < p.len() implies #[trigger] buf[HEADER_SIZE + j] == p[j] by {}
    assert forall|i: int| 0 <= i < secs.len() implies {
        &&& section_data(buf, section_fields(secs[i]), packed_offset(secs, i)) == (#[trigger] secs[i]).data
        &&& !crc_mismatch(buf, section_fields(secs[i]), packed_offset(secs, i), BLOCK_SIZE as nat)
        &&& !md5_mismatch(buf, section_fields(secs[i]), packed_offset(secs, i))
    } by {
        let f = section_fields(secs[i]);
        let off = packed_offset(secs, i);
        lemma_payloads_step(secs, i);
        lemma_payloads_prefix(secs, i + 1);
        let a = payloads(secs.take(i));
        let d = secs[i].data;
        assert(f.size == d.len());
        assert(p.take((a.len() + d.len()) as int) == a + d);
        assert forall|j: int| 0 <= j < d.len() implies #[trigger] section_data(buf, f, off)[j] == d[j] by {
            assert(section_data(buf, f, off)[j] == buf[off + j]);
            assert(buf[off + j] == p[a.len() + j]);
            assert(p.take((a.len() + d.len()) as int)[a.len() + j] == (a + d)[a.len() + j]);
        }
        assert(section_data(buf, f, off) =~= d);
        lemma_md5_hex_roundtrip(md5_digest(d)@);
        lemma_hex_bytes(md5_digest(d)@);
    }
    // the whole-image digest
    assert(buf.subrange(HEADER_SIZE as int, HEADER_SIZE + p.len()) =~= p);
    lemma_md5_hex_roundtrip(md5_digest(p)@);
}

/// With the sections of a packed image read into `slots` (as `OtaExtractor::parse`
/// describes them), no section check fails; together with the law above, parsing a
/// packed image with at least one section succeeds.
pub proof fn lemma_packed_sections_pass(secs: Seq<PackedSection>, out: Seq<u8>, slots: Seq<Option<OtaImageSection>>, n: int)
    requires
        0 <= n <= secs.len() <= MAX_IMAGES,
        n <= slots.len(),
        forall|i: int| 0 <= i < secs.len() ==> clean_section(#[trigger] secs[i]),
        encode_utf8(header_text_of(secs)).len() <= HEADER_SIZE_MAX,
        HEADER_SIZE + payloads(secs).len() <= out.len(),
        forall|i: int|
            encode_utf8(header_text_of(secs)).len() <= i < HEADER_SIZE ==> #[trigger] out[i] == 0,
        forall|i: int|
            0 <= i < n ==> slot_matches(
                #[trigger] slots[i],
                packed_image(secs, out),
                expected_found(secs)[i].0,
                expected_found(secs)[i].1,
                BLOCK_SIZE as nat,
            ),
    ensures
        first_section_failure(slots, n) is None,
    decreases n,
{
    if n > 0 {
        lemma_packed_sections_pass(secs, out, slots, n - 1);
        lemma_packed_image_reads_back(secs, out);
        assert(slot_matches(slots[n - 1], packed_image(secs, out), expected_found(secs)[n - 1].0,
            expected_found(secs)[n - 1].1, BLOCK_SIZE as nat));
        assert(expected_found(secs)[n - 1] == (section_fields(secs[n - 1]), packed_offset(secs, n - 1)));
    }
}

} // verus!

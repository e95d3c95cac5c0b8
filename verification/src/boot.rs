//! Boot-time decisions: which platform the device is, which target to boot (from the
//! kernel command line), and the list of files read ahead at boot.
use vstd::prelude::*;
use vstd::utf8::*;
use crate::props::nonempty_parts;
use crate::modules_info::strs;
use crate::radio::Radio;
use crate::text::{chars_eq, chars_eq_str, chars_of, find_char, find_char_exec, lemma_find_char, seqs_of, string_of, sub_chars};

verus! {

/// Longest path read ahead at boot, in bytes.
pub const READAHEAD_PATH_LEN: usize = 512;
/// Most paths read ahead at boot.
pub const READAHEAD_PATHS_MAX: usize = 24;
/// Longest value read from the kernel command line, in bytes.
pub const CMDLINE_VALUE_CAP: usize = 64;

/// The SoC family of the device.
#[derive(Debug, PartialEq, Eq, Structural, Clone, Copy)]
pub enum BootPlatform {
    Imx,
    Ingenic,
}

/// What to boot into.
#[derive(PartialEq, Eq, Debug, Structural, Clone, Copy)]
pub enum BootTarget {
    Recovery,
    CatPlay,
}

impl BootPlatform {
    /// The platform: Ingenic on a Mini Ultra, i.MX otherwise.
    pub fn detect(ultra: bool) -> (r: BootPlatform)
        ensures
            r == if ultra {
                BootPlatform::Ingenic
            } else {
                BootPlatform::Imx
            },
    {
        if ultra {
            BootPlatform::Ingenic
        } else {
            BootPlatform::Imx
        }
    }
}

/// `char::is_ascii_whitespace`.
pub open spec fn is_ascii_ws(c: char) -> bool {
    c == ' ' || c == '\t' || c == '\n' || c == '\x0C' || c == '\r'
}

/// The pieces of `s` between ASCII whitespace characters.
pub open spec fn ws_pieces(s: Seq<char>) -> Seq<Seq<char>>
    decreases s.len(),
{
    if s.len() == 0 {
        seq![seq![]]
    } else {
        let rest = ws_pieces(s.drop_last());
        if is_ascii_ws(s.last()) {
            rest.push(seq![])
        } else {
            rest.update(rest.len() - 1, rest.last().push(s.last()))
        }
    }
}

/// `str::split_ascii_whitespace`.
pub open spec fn cmdline_words(s: Seq<char>) -> Seq<Seq<char>> {
    nonempty_parts(ws_pieces(s))
}

/// The value of the first `arg=value` word.
pub open spec fn arg_value(words: Seq<Seq<char>>, arg: Seq<char>) -> Option<Seq<char>>
    decreases words.len(),
{
    if words.len() == 0 {
        None
    } else {
        let w = words[0];
        match find_char(w, '=') {
            Some(p) => if w.take(p) == arg {
                Some(w.skip(p + 1))
            } else {
                arg_value(words.drop_first(), arg)
            },
            None => arg_value(words.drop_first(), arg),
        }
    }
}

/// What `cmdline_arg` gives: the value of the first `arg=...` word of the command line,
/// if it fits `cap` bytes.
pub open spec fn cmdline_value(cmdline: Seq<char>, arg: Seq<char>, cap: int) -> Option<Seq<char>> {
    match arg_value(cmdline_words(cmdline), arg) {
        Some(v) => if (encode_utf8(v).len() as usize) > cap {
            None
        } else {
            Some(v)
        },
        None => None,
    }
}

fn ws_pieces_exec(s: &[char]) -> (r: Vec<Vec<char>>)
    ensures
        seqs_of(r@) == ws_pieces(s@),
{
    let mut pieces: Vec<Vec<char>> = Vec::new();
    pieces.push(Vec::new());
    let mut i: usize = 0;
    assert(s@.take(0) =~= Seq::<char>::empty());
    assert(seqs_of(pieces@) =~= ws_pieces(s@.take(0)));
    while i < s.len()
        invariant
            i <= s@.len(),
            pieces@.len() > 0,
            seqs_of(pieces@) == ws_pieces(s@.take(i as int)),
        decreases s@.len() - i,
    {
        let ghost before = seqs_of(pieces@);
        assert(s@.take(i + 1).drop_last() =~= s@.take(i as int));
        assert(s@.take(i + 1).last() == s@[i as int]);
        let c = s[i];
        if c == ' ' || c == '\t' || c == '\n' || c == '\x0C' || c == '\r' {
            pieces.push(Vec::new());
            assert(seqs_of(pieces@) =~= before.push(seq![]));
        } else {
            let last = pieces.len() - 1;
            let mut w = pieces[last].clone();
            w.push(c);
            pieces.set(last, w);
            assert(seqs_of(pieces@) =~= before.update(before.len() - 1, before.last().push(c)));
        }
        i = i + 1;
    }
    assert(s@.take(s@.len() as int) =~= s@);
    pieces
}

fn words_exec(s: &[char]) -> (r: Vec<Vec<char>>)
    ensures
        seqs_of(r@) == cmdline_words(s@),
{
    let pieces = ws_pieces_exec(s);
    let ghost ps = seqs_of(pieces@);
    let mut words: Vec<Vec<char>> = Vec::new();
    let mut i: usize = 0;
    assert(ps.take(0) =~= Seq::<Seq<char>>::empty());
    assert(seqs_of(words@) =~= nonempty_parts(ps.take(0)));
    while i < pieces.len()
        invariant
            i <= pieces@.len(),
            ps == seqs_of(pieces@),
            seqs_of(words@) == nonempty_parts(ps.take(i as int)),
        decreases pieces@.len() - i,
    {
        assert(ps.take(i + 1).drop_last() =~= ps.take(i as int));
        assert(ps.take(i + 1).last() == pieces@[i as int]@);
        if pieces[i].len() > 0 {
            let ghost before = seqs_of(words@);
            let w = pieces[i].clone();
            assert(w@ == pieces@[i as int]@);
            words.push(w);
            assert(seqs_of(words@) =~= before.push(ps[i as int]));
        }
        i = i + 1;
    }
    assert(ps.take(ps.len() as int) =~= ps);
    words
}

/// The value of the first `arg=value` word of the kernel command line, if it fits `cap`
/// bytes.
pub fn cmdline_arg(cmdline: &str, arg: &str, cap: usize) -> (r: Option<String>)
    ensures
        match cmdline_value(cmdline@, arg@, cap as int) {
            Some(v) => r matches Some(s) && s@ == v,
            None => r is None,
        },
{
    let cs = chars_of(cmdline);
    let words = words_exec(cs.as_slice());
    let ghost ws = seqs_of(words@);
    let mut k: usize = 0;
    assert(ws.skip(0) =~= ws);
    while k < words.len()
        invariant
            k <= words@.len(),
            ws == seqs_of(words@),
            ws == cmdline_words(cmdline@),
            arg_value(ws, arg@) == arg_value(ws.skip(k as int), arg@),
        decreases words@.len() - k,
    {
        let w = words[k].as_slice();
        let ghost rest = ws.skip(k as int);
        assert(rest[0] == w@);
        assert(rest.drop_first() =~= ws.skip(k + 1));
        proof {
            lemma_find_char(w@, '=');
        }
        match find_char_exec(w, '=') {
            Some(p) => {
                let n = w.len();
                assert(p < n);
                let key = sub_chars(w, 0, p);
                assert(key@ =~= w@.take(p as int));
                if chars_eq_str(key.as_slice(), arg) {
                    let value = sub_chars(w, p + 1, n);
                    assert(value@ =~= w@.skip(p + 1));
                    let v = string_of(value.as_slice());
                    if v.as_str().len() > cap {
                        return None;
                    }
                    return Some(v);
                }
            },
            None => {},
        }
        k = k + 1;
    }
    assert(ws.skip(k as int) =~= Seq::<Seq<char>>::empty());
    None
}

/// The boot target on the kernel command line: recovery for `c2a_boot=recovery`,
/// CatPlay otherwise.
pub fn boot_target_from_cmdline(cmdline: &str) -> (r: BootTarget)
    ensures
        r == if cmdline_value(cmdline@, "c2a_boot"@, CMDLINE_VALUE_CAP as int) == Some("recovery"@) {
            BootTarget::Recovery
        } else {
            BootTarget::CatPlay
        },
{
    match cmdline_arg(cmdline, "c2a_boot", CMDLINE_VALUE_CAP) {
        Some(v) => {
            let vc = chars_of(v.as_str());
            if chars_eq_str(vc.as_slice(), "recovery") {
                BootTarget::Recovery
            } else {
                BootTarget::CatPlay
            }
        },
        None => BootTarget::CatPlay,
    }
}

/// Adds a path to the read-ahead list; fails for a path longer than `READAHEAD_PATH_LEN`
/// bytes or a full list, and then leaves the list as it was.
pub fn push_readahead_path(out: &mut Vec<String>, path: &str) -> (r: Result<(), &'static str>)
    ensures
        (encode_utf8(path@).len() as usize) > READAHEAD_PATH_LEN ==> r == Err::<(), &'static str>(
            "path too long",
        ) && final(out)@ == old(out)@,
        (encode_utf8(path@).len() as usize) <= READAHEAD_PATH_LEN && old(out)@.len()
            >= READAHEAD_PATHS_MAX ==> r == Err::<(), &'static str>("too many paths") && final(out)@
            == old(out)@,
        (encode_utf8(path@).len() as usize) <= READAHEAD_PATH_LEN && old(out)@.len()
            < READAHEAD_PATHS_MAX ==> r is Ok && final(out)@.len() == old(out)@.len() + 1
            && final(out)@.drop_last() == old(out)@ && final(out)@.last()@ == path@,
{
    if path.len() > READAHEAD_PATH_LEN {
        return Err("path too long");
    }
    if out.len() >= READAHEAD_PATHS_MAX {
        return Err("too many paths");
    }
    out.push(path.to_owned());
    assert(out@.drop_last() =~= old(out)@);
    Ok(())
}

/// Room for a sysctl path, in bytes.
pub const SYSCTL_PATH_CAP: usize = 128;

/// The `/proc/sys` file of a sysctl key: `/proc/sys/` and the key with dots as slashes.
pub open spec fn sysctl_file(key: Seq<char>) -> Seq<char> {
    "/proc/sys/"@ + Seq::new(key.len(), |i: int| if key[i] == '.' {
        '/'
    } else {
        key[i]
    })
}

/// The `/proc/sys` file of a sysctl key, if it fits `SYSCTL_PATH_CAP` bytes.
pub fn sysctl_path(key: &str) -> (r: Result<String, &'static str>)
    ensures
        (encode_utf8(sysctl_file(key@)).len() as usize) > SYSCTL_PATH_CAP ==> r == Err::<
            String,
            &'static str,
        >("sysctl path too long"),
        (encode_utf8(sysctl_file(key@)).len() as usize) <= SYSCTL_PATH_CAP ==> (r matches Ok(p)
            && p@ == sysctl_file(key@)),
{
    let kc = chars_of(key);
    let mut out: Vec<char> = Vec::new();
    crate::text::push_str_chars(&mut out, "/proc/sys/");
    let ghost start = out@;
    let mut i: usize = 0;
    while i < kc.len()
        invariant
            i <= kc@.len(),
            kc@ == key@,
            start == "/proc/sys/"@,
            out@ == start + Seq::new(i as nat, |j: int| if kc@[j] == '.' {
                '/'
            } else {
                kc@[j]
            }),
        decreases kc@.len() - i,
    {
        let c = kc[i];
        if c == '.' {
            out.push('/');
        } else {
            out.push(c);
        }
        assert(out@ =~= start + Seq::new((i + 1) as nat, |j: int| if kc@[j] == '.' {
            '/'
        } else {
            kc@[j]
        }));
        i = i + 1;
    }
    assert(out@ =~= sysctl_file(key@));
    let s = string_of(out.as_slice());
    if s.as_str().len() > SYSCTL_PATH_CAP {
        return Err("sysctl path too long");
    }
    Ok(s)
}

/// The list after adding `p`, or `None` when `push_readahead_path` refuses it.
pub open spec fn readahead_push(list: Seq<Seq<char>>, p: Seq<char>) -> Option<Seq<Seq<char>>> {
    if (encode_utf8(p).len() as usize) > READAHEAD_PATH_LEN || list.len() >= READAHEAD_PATHS_MAX {
        None
    } else {
        Some(list.push(p))
    }
}

/// Adding the paths `ps` in order, stopping at the first one refused.
pub open spec fn push_until_refused(list: Seq<Seq<char>>, ps: Seq<Seq<char>>) -> Seq<Seq<char>>
    decreases ps.len(),
{
    if ps.len() == 0 {
        list
    } else {
        match readahead_push(list, ps[0]) {
            None => list,
            Some(l) => push_until_refused(l, ps.drop_first()),
        }
    }
}

/// Adding the paths `ps` in order, leaving out each one refused.
pub open spec fn push_skipping_refused(list: Seq<Seq<char>>, ps: Seq<Seq<char>>) -> Seq<Seq<char>>
    decreases ps.len(),
{
    if ps.len() == 0 {
        list
    } else {
        match readahead_push(list, ps[0]) {
            None => push_skipping_refused(list, ps.drop_first()),
            Some(l) => push_skipping_refused(l, ps.drop_first()),
        }
    }
}

/// The files of each module's list, one module after the other, each stopping at its
/// first refused path.
pub open spec fn push_module_lists(list: Seq<Seq<char>>, mods: Seq<Seq<Seq<char>>>) -> Seq<Seq<char>>
    decreases mods.len(),
{
    if mods.len() == 0 {
        list
    } else {
        push_module_lists(push_until_refused(list, mods[0]), mods.drop_first())
    }
}

/// The firmware and programs read ahead on the Mini Ultra, after its Wi-Fi modules.
pub open spec fn ultra_readahead_files() -> Seq<&'static str> {
    seq![
        "/lib/firmware/aic8800_fw/SDIO/aic8800D80/fw_patch_table_8800d80_u02.bin",
        "/lib/firmware/aic8800_fw/SDIO/aic8800D80/fw_adid_8800d80_u02.bin",
        "/lib/firmware/aic8800_fw/SDIO/aic8800D80/fw_patch_8800d80_u02.bin",
        "/lib/firmware/aic8800_fw/SDIO/aic8800D80/fw_patch_8800d80_u02_ext0.bin",
        "/lib/firmware/aic8800_fw/SDIO/aic8800D80/fmacfw_8800d80_h_u02.bin",
        "/usr/bin/catplay_c2a",
        "/bin/busybox",
        "/usr/libexec/bluetooth/bluetoothd",
        "/usr/sbin/hostapd",
    ]
}

/// The Wi-Fi modules of the Mini Ultra whose files are read ahead, in order.
pub open spec fn ultra_readahead_modules() -> Seq<&'static str> {
    seq!["aic8800_bsp", "aic8800_fdrv"]
}

/// The texts of a sequence of string slices.
pub open spec fn strs_of(v: Seq<&'static str>) -> Seq<Seq<char>> {
    Seq::new(v.len(), |i: int| v[i]@)
}

/// The texts of the strings in a sequence of lists of paths.
pub open spec fn path_lists(v: Seq<Vec<String>>) -> Seq<Seq<Seq<char>>> {
    Seq::new(v.len(), |i: int| strs(v[i]@))
}

/// The sysctl settings of i.MX devices.
pub open spec fn imx_sysctls() -> Seq<(&'static str, &'static str)> {
    seq![
        ("net.ipv4.tcp_rmem", "4096 262144 16777216"),
        ("net.ipv4.tcp_wmem", "4096 262144 16777216"),
        ("net.core.rmem_max", "16777216"),
        ("net.core.rmem_default", "2097152"),
        ("net.core.wmem_max", "16777216"),
        ("net.core.wmem_default", "2097152"),
        ("net.ipv4.tcp_moderate_rcvbuf", "1"),
        ("net.ipv4.tcp_low_latency", "1"),
        ("vm.dirty_expire_centisecs", "100"),
        ("vm.dirty_writeback_centisecs", "100"),
    ]
}

/// The sysctl settings of the Mini Ultra.
pub open spec fn ultra_sysctls() -> Seq<(&'static str, &'static str)> {
    seq![
        ("net.core.netdev_max_backlog", "512"),
        ("net.ipv4.tcp_moderate_rcvbuf", "1"),
        ("net.ipv4.tcp_low_latency", "1"),
        ("net.ipv4.tcp_max_orphans", "256"),
        ("net.ipv4.tcp_tw_reuse", "1"),
        ("vm.watermark_boost_factor", "0"),
        ("vm.watermark_scale_factor", "10"),
        ("vm.min_free_kbytes", "2048"),
        ("vm.swappiness", "10"),
        ("vm.vfs_cache_pressure", "500"),
        ("vm.page-cluster", "0"),
        ("vm.dirty_expire_centisecs", "100"),
        ("vm.dirty_writeback_centisecs", "100"),
    ]
}

/// The boot target the kernel command line `cmdline` asks for.
pub open spec fn target_of(cmdline: Seq<char>) -> BootTarget {
    if cmdline_value(cmdline, "c2a_boot"@, CMDLINE_VALUE_CAP as int) == Some("recovery"@) {
        BootTarget::Recovery
    } else {
        BootTarget::CatPlay
    }
}

/// A read-ahead list that fits its room: at most `READAHEAD_PATHS_MAX` paths of at most
/// `READAHEAD_PATH_LEN` bytes each.
pub open spec fn readahead_fits(list: Seq<Seq<char>>) -> bool {
    list.len() <= READAHEAD_PATHS_MAX && forall|i: int|
        0 <= i < list.len() ==> (encode_utf8(#[trigger] list[i]).len() as usize) <= READAHEAD_PATH_LEN
}

proof fn lemma_push_fits(list: Seq<Seq<char>>, p: Seq<char>)
    requires
        readahead_fits(list),
    ensures
        readahead_push(list, p) matches Some(l) ==> readahead_fits(l),
{
    if let Some(l) = readahead_push(list, p) {
        assert forall|i: int| 0 <= i < l.len() implies (encode_utf8(#[trigger] l[i]).len() as usize)
            <= READAHEAD_PATH_LEN by {
            if i < list.len() {
                assert(l[i] == list[i]);
            }
        }
    }
}

proof fn lemma_until_refused_fits(list: Seq<Seq<char>>, ps: Seq<Seq<char>>)
    requires
        readahead_fits(list),
    ensures
        readahead_fits(push_until_refused(list, ps)),
    decreases ps.len(),
{
    if ps.len() > 0 {
        lemma_push_fits(list, ps[0]);
        if let Some(l) = readahead_push(list, ps[0]) {
            lemma_until_refused_fits(l, ps.drop_first());
        }
    }
}

proof fn lemma_skipping_refused_fits(list: Seq<Seq<char>>, ps: Seq<Seq<char>>)
    requires
        readahead_fits(list),
    ensures
        readahead_fits(push_skipping_refused(list, ps)),
    decreases ps.len(),
{
    if ps.len() > 0 {
        lemma_push_fits(list, ps[0]);
        match readahead_push(list, ps[0]) {
            Some(l) => lemma_skipping_refused_fits(l, ps.drop_first()),
            None => lemma_skipping_refused_fits(list, ps.drop_first()),
        }
    }
}

proof fn lemma_module_lists_fit(list: Seq<Seq<char>>, mods: Seq<Seq<Seq<char>>>)
    requires
        readahead_fits(list),
    ensures
        readahead_fits(push_module_lists(list, mods)),
    decreases mods.len(),
{
    if mods.len() > 0 {
        lemma_until_refused_fits(list, mods[0]);
        lemma_module_lists_fit(push_until_refused(list, mods[0]), mods.drop_first());
    }
}

/// **Law: the read-ahead list keeps to its room.** Whatever module files are given, the
/// Mini Ultra's read-ahead list holds at most `READAHEAD_PATHS_MAX` paths, none longer than
/// `READAHEAD_PATH_LEN` bytes.
pub proof fn lemma_readahead_fits(mods: Seq<Seq<Seq<char>>>)
    ensures
        readahead_fits(push_skipping_refused(push_module_lists(seq![], mods), strs_of(ultra_readahead_files()))),
{
    lemma_module_lists_fit(seq![], mods);
    lemma_skipping_refused_fits(push_module_lists(seq![], mods), strs_of(ultra_readahead_files()));
}

/// How a platform boots.
pub struct Boot {
    pub target: BootTarget,
    pub main_udc: &'static str,
    pub extra_udc: Option<&'static str>,
    pub persist_mtd: &'static str,
    pub persist_fs: &'static str,
    pub readahead: Vec<String>,
    pub mfi_bus: &'static str,
    pub mfi_dev_addr: &'static str,
    pub sysctls: Vec<(&'static str, &'static str)>,
    pub platform: BootPlatform,
    pub p2p_allow: bool,
    pub p2p_whitelist: Vec<Radio>,
    pub p2p_without_hostapd: bool,
    pub p2p_catplay: bool,
}

fn imx_sysctl_list() -> (r: Vec<(&'static str, &'static str)>)
    ensures
        r@ == imx_sysctls(),
{
    let r = vec![
        ("net.ipv4.tcp_rmem", "4096 262144 16777216"),
        ("net.ipv4.tcp_wmem", "4096 262144 16777216"),
        ("net.core.rmem_max", "16777216"),
        ("net.core.rmem_default", "2097152"),
        ("net.core.wmem_max", "16777216"),
        ("net.core.wmem_default", "2097152"),
        ("net.ipv4.tcp_moderate_rcvbuf", "1"),
        ("net.ipv4.tcp_low_latency", "1"),
        ("vm.dirty_expire_centisecs", "100"),
        ("vm.dirty_writeback_centisecs", "100"),
    ];
    assert(r@ =~= imx_sysctls());
    r
}

fn ultra_sysctl_list() -> (r: Vec<(&'static str, &'static str)>)
    ensures
        r@ == ultra_sysctls(),
{
    let r = vec![
        ("net.core.netdev_max_backlog", "512"),
        ("net.ipv4.tcp_moderate_rcvbuf", "1"),
        ("net.ipv4.tcp_low_latency", "1"),
        ("net.ipv4.tcp_max_orphans", "256"),
        ("net.ipv4.tcp_tw_reuse", "1"),
        ("vm.watermark_boost_factor", "0"),
        ("vm.watermark_scale_factor", "10"),
        ("vm.min_free_kbytes", "2048"),
        ("vm.swappiness", "10"),
        ("vm.vfs_cache_pressure", "500"),
        ("vm.page-cluster", "0"),
        ("vm.dirty_expire_centisecs", "100"),
        ("vm.dirty_writeback_centisecs", "100"),
    ];
    assert(r@ =~= ultra_sysctls());
    r
}

/// The names of the Mini Ultra's Wi-Fi modules whose files are read ahead.
pub fn ultra_readahead_module_names() -> (r: Vec<&'static str>)
    ensures
        r@ == ultra_readahead_modules(),
{
    let r = vec!["aic8800_bsp", "aic8800_fdrv"];
    assert(r@ =~= ultra_readahead_modules());
    r
}

fn ultra_file_list() -> (r: Vec<&'static str>)
    ensures
        r@ == ultra_readahead_files(),
{
    let r = vec![
        "/lib/firmware/aic8800_fw/SDIO/aic8800D80/fw_patch_table_8800d80_u02.bin",
        "/lib/firmware/aic8800_fw/SDIO/aic8800D80/fw_adid_8800d80_u02.bin",
        "/lib/firmware/aic8800_fw/SDIO/aic8800D80/fw_patch_8800d80_u02.bin",
        "/lib/firmware/aic8800_fw/SDIO/aic8800D80/fw_patch_8800d80_u02_ext0.bin",
        "/lib/firmware/aic8800_fw/SDIO/aic8800D80/fmacfw_8800d80_h_u02.bin",
        "/usr/bin/catplay_c2a",
        "/bin/busybox",
        "/usr/libexec/bluetooth/bluetoothd",
        "/usr/sbin/hostapd",
    ];
    assert(r@ =~= ultra_readahead_files());
    r
}

/// The Mini Ultra's read-ahead list: the files of each module in `module_paths` (the
/// load-order files of each module of `ultra_readahead_module_names`, as far as they
/// could be listed), then the firmware and programs; a path the list refuses ends its
/// module's files and is left out among the others.
pub fn ultra_readahead(module_paths: &[Vec<String>]) -> (r: Vec<String>)
    ensures
        strs(r@) == push_skipping_refused(
            push_module_lists(seq![], path_lists(module_paths@)),
            strs_of(ultra_readahead_files()),
        ),
{
    let ghost mods = path_lists(module_paths@);
    let mut out: Vec<String> = Vec::new();
    let mut m: usize = 0;
    assert(strs(out@) =~= Seq::<Seq<char>>::empty());
    assert(mods.skip(0) =~= mods);
    while m < module_paths.len()
        invariant
            m <= module_paths@.len(),
            mods == path_lists(module_paths@),
            push_module_lists(seq![], mods) == push_module_lists(strs(out@), mods.skip(m as int)),
        decreases module_paths@.len() - m,
    {
        let paths = &module_paths[m];
        let ghost ps = strs(paths@);
        let ghost start = strs(out@);
        assert(mods.skip(m as int)[0] == ps);
        assert(mods.skip(m as int).drop_first() =~= mods.skip(m + 1));
        let mut k: usize = 0;
        assert(ps.skip(0) =~= ps);
        while k < paths.len()
            invariant
                k <= paths@.len(),
                ps == strs(paths@),
                push_until_refused(start, ps) == push_until_refused(strs(out@), ps.skip(k as int)),
            ensures
                strs(out@) == push_until_refused(start, ps),
            decreases paths@.len() - k,
        {
            let ghost before = strs(out@);
            let ghost rest = ps.skip(k as int);
            assert(rest[0] == paths@[k as int]@);
            assert(rest.drop_first() =~= ps.skip(k + 1));
            match push_readahead_path(&mut out, paths[k].as_str()) {
                Ok(()) => {
                    assert(strs(out@) =~= before.push(paths@[k as int]@));
                },
                Err(_) => {
                    assert(readahead_push(strs(out@), rest[0]) is None);
                    break;
                },
            }
            k = k + 1;
            if k == paths.len() {
                assert(ps.skip(k as int) =~= Seq::<Seq<char>>::empty());
            }
        }
        assert(mods.skip(m as int)[0] == ps);
        m = m + 1;
    }
    assert(mods.skip(m as int) =~= Seq::<Seq<Seq<char>>>::empty());
    let files = ultra_file_list();
    let ghost fs = strs_of(files@);
    let ghost mid = strs(out@);
    let mut j: usize = 0;
    assert(fs.skip(0) =~= fs);
    while j < files.len()
        invariant
            j <= files@.len(),
            files@ == ultra_readahead_files(),
            fs == strs_of(files@),
            push_skipping_refused(mid, fs) == push_skipping_refused(strs(out@), fs.skip(j as int)),
        decreases files@.len() - j,
    {
        let ghost before = strs(out@);
        let ghost rest = fs.skip(j as int);
        assert(rest[0] == files@[j as int]@);
        assert(rest.drop_first() =~= fs.skip(j + 1));
        match push_readahead_path(&mut out, files[j]) {
            Ok(()) => {
                assert(strs(out@) =~= before.push(files@[j as int]@));
            },
            Err(_) => {},
        }
        j = j + 1;
    }
    assert(fs.skip(j as int) =~= Seq::<Seq<char>>::empty());
    out
}

impl BootPlatform {
    /// How an i.MX device boots; the target comes from the kernel command line
    /// `cmdline` (empty when it could not be read).
    pub fn boot_params_imx(cmdline: &str) -> (r: Boot)
        ensures
            r.target == target_of(cmdline@),
            r.main_udc == "ci_hdrc.1",
            r.extra_udc == Some("ci_hdrc.0"),
            r.persist_mtd == "/dev/mtdblock6",
            r.persist_fs == "jffs2",
            r.readahead@.len() == 0,
            r.mfi_bus == "1",
            r.mfi_dev_addr == "0x11",
            r.sysctls@ == imx_sysctls(),
            r.platform == BootPlatform::Imx,
            !r.p2p_allow,
            r.p2p_whitelist@.len() == 0,
            !r.p2p_catplay,
            !r.p2p_without_hostapd,
    {
        Boot {
            target: boot_target_from_cmdline(cmdline),
            main_udc: "ci_hdrc.1",
            extra_udc: Some("ci_hdrc.0"),
            persist_mtd: "/dev/mtdblock6",
            persist_fs: "jffs2",
            readahead: Vec::new(),
            mfi_bus: "1",
            mfi_dev_addr: "0x11",
            sysctls: imx_sysctl_list(),
            platform: BootPlatform::Imx,
            p2p_allow: false,
            p2p_whitelist: Vec::new(),
            p2p_catplay: false,
            p2p_without_hostapd: false,
        }
    }

    /// How the Mini Ultra boots; the target comes from the kernel command line
    /// `cmdline`, the read-ahead list from `module_paths` (see `ultra_readahead`).
    pub fn boot_params_ultra(cmdline: &str, module_paths: &[Vec<String>]) -> (r: Boot)
        ensures
            r.target == target_of(cmdline@),
            r.main_udc == "13500000.usb",
            r.extra_udc is None,
            r.persist_mtd == "/dev/mtdblock3",
            r.persist_fs == "jffs2",
            strs(r.readahead@) == push_skipping_refused(
                push_module_lists(seq![], path_lists(module_paths@)),
                strs_of(ultra_readahead_files()),
            ),
            r.mfi_bus == "0",
            r.mfi_dev_addr == "0x10",
            r.sysctls@ == ultra_sysctls(),
            r.platform == BootPlatform::Ingenic,
            !r.p2p_allow,
            r.p2p_whitelist@ == seq![Radio::AIC8800D80],
            !r.p2p_catplay,
            r.p2p_without_hostapd,
    {
        let mut whitelist: Vec<Radio> = Vec::new();
        whitelist.push(Radio::AIC8800D80);
        assert(whitelist@ =~= seq![Radio::AIC8800D80]);
        Boot {
            target: boot_target_from_cmdline(cmdline),
            main_udc: "13500000.usb",
            extra_udc: None,
            persist_mtd: "/dev/mtdblock3",
            persist_fs: "jffs2",
            readahead: ultra_readahead(module_paths),
            mfi_bus: "0",
            mfi_dev_addr: "0x10",
            sysctls: ultra_sysctl_list(),
            platform: BootPlatform::Ingenic,
            p2p_allow: false,
            p2p_whitelist: whitelist,
            p2p_catplay: false,
            p2p_without_hostapd: true,
        }
    }

    /// How this platform boots.
    pub fn params(&self, cmdline: &str, module_paths: &[Vec<String>]) -> (r: Boot)
        ensures
            r.platform == *self,
            r.target == target_of(cmdline@),
    {
        match self {
            BootPlatform::Imx => Self::boot_params_imx(cmdline),
            BootPlatform::Ingenic => Self::boot_params_ultra(cmdline, module_paths),
        }
    }
}

} // verus!

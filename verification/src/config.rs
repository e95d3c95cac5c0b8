//! Configuration files written at boot: CatPlay's TOML file, hostapd / wpa_supplicant
//! files filled from a template, and udhcpd's file. Each has a fixed room in bytes.
use vstd::prelude::*;
use vstd::utf8::*;
use crate::props::{split_char, split_char_exec};
use crate::text::{
    chars_eq, chars_of, push_chars, push_str_chars, seqs_of, string_of, sub_chars, trim_start,
    trim_start_index,
};

verus! {

/// Room for CatPlay's file, in bytes.
pub const CATPLAY_CAP: usize = 1024;
/// Room for a hostapd file, in bytes.
pub const HOSTAPD_CAP: usize = 2048;
/// Room for udhcpd's file, in bytes.
pub const UDHCPD_CAP: usize = 256;

/// Length in bytes of a text, as the machine counts it.
pub open spec fn text_bytes(s: Seq<char>) -> int {
    (encode_utf8(s).len() as usize) as int
}

/// A rendered text if it fits `cap` bytes, else the error.
pub open spec fn fit(text: Seq<char>, cap: int, err: &'static str) -> Result<Seq<char>, &'static str> {
    if text_bytes(text) > cap {
        Err(err)
    } else {
        Ok(text)
    }
}

fn fit_exec(out: Vec<char>, cap: usize, err: &'static str) -> (r: Result<String, &'static str>)
    ensures
        match fit(out@, cap as int, err) {
            Ok(t) => r matches Ok(s) && s@ == t,
            Err(e) => r == Err::<String, &'static str>(e),
        },
{
    let s = string_of(out.as_slice());
    if s.as_str().len() > cap {
        Err(err)
    } else {
        Ok(s)
    }
}

/// Settings of CatPlay's file.
pub struct CatplayConfig<'a> {
    pub ssid: &'a str,
    pub wpa_passphrase: &'a str,
    pub channel: Option<&'a str>,
    pub wlan_dev: &'a str,
    pub hci_dev: &'a str,
    pub name: &'a str,
    pub udc: &'a str,
    pub udc_extra: Option<&'a str>,
    pub mfi_bus: &'a str,
    pub mfi_dev_addr: &'a str,
    pub disable_gadget: bool,
}

/// CatPlay's file for the settings `c`.
pub open spec fn catplay_text(c: CatplayConfig) -> Seq<char> {
    "debug = true\n"@ + "persist_dir = \"/persist/\"\n\n"@ + "[mfi]\n"@ + "selftest = false\n\n"@
        + "[mfi.i2c]\n"@ + "bus_offset = "@ + c.mfi_bus@ + "\n"@ + "dev_addr = "@ + c.mfi_dev_addr@
        + "\n"@ + "timeout_ms = 1000\n\n"@ + "[mfi.server]\n"@ + "enabled = true\n"@
        + "bind = \"0.0.0.0:9000\"\n\n"@ + "[bluetooth]\n"@ + "enabled = false\n"@ + "device = \""@
        + c.hci_dev@ + "\"\n"@ + "name = \""@ + c.name@ + "\"\n\n"@ + "[wifi]\n"@
        + "enabled = false\n"@ + "device = \""@ + c.wlan_dev@ + "\"\n\n"@ + "[wifi_network]\n"@
        + "ssid = \""@ + c.ssid@ + "\"\n"@ + "password = \""@ + c.wpa_passphrase@ + "\"\n"@
        + "wpa = true\n"@ + match c.channel {
        Some(ch) => "channel = "@ + ch@ + "\n"@,
        None => seq![],
    } + "\n"@ + "[gadget]\n"@ + "enabled = "@ + (if c.disable_gadget {
        "false"@
    } else {
        "true"@
    }) + "\n"@ + "pinned = false\n"@ + match c.udc_extra {
        Some(u) => "udc_extra = \""@ + u@ + "\"\n"@,
        None => seq![],
    } + "udc_car = \""@ + c.udc@ + "\"\n"@
}

impl<'a> CatplayConfig<'a> {
    /// Writes CatPlay's file; fails when it would not fit `CATPLAY_CAP` bytes.
    pub fn format(&self) -> (r: Result<String, &'static str>)
        ensures
            match fit(catplay_text(*self), CATPLAY_CAP as int, "catplay config too long") {
                Ok(t) => r matches Ok(s) && s@ == t,
                Err(e) => r == Err::<String, &'static str>(e),
            },
    {
        let mut o: Vec<char> = Vec::new();
        push_str_chars(&mut o, "debug = true\n");
        push_str_chars(&mut o, "persist_dir = \"/persist/\"\n\n");
        push_str_chars(&mut o, "[mfi]\n");
        push_str_chars(&mut o, "selftest = false\n\n");
        push_str_chars(&mut o, "[mfi.i2c]\n");
        push_str_chars(&mut o, "bus_offset = ");
        push_str_chars(&mut o, self.mfi_bus);
        push_str_chars(&mut o, "\n");
        push_str_chars(&mut o, "dev_addr = ");
        push_str_chars(&mut o, self.mfi_dev_addr);
        push_str_chars(&mut o, "\n");
        push_str_chars(&mut o, "timeout_ms = 1000\n\n");
        push_str_chars(&mut o, "[mfi.server]\n");
        push_str_chars(&mut o, "enabled = true\n");
        push_str_chars(&mut o, "bind = \"0.0.0.0:9000\"\n\n");
        push_str_chars(&mut o, "[bluetooth]\n");
        push_str_chars(&mut o, "enabled = false\n");
        push_str_chars(&mut o, "device = \"");
        push_str_chars(&mut o, self.hci_dev);
        push_str_chars(&mut o, "\"\n");
        push_str_chars(&mut o, "name = \"");
        push_str_chars(&mut o, self.name);
        push_str_chars(&mut o, "\"\n\n");
        push_str_chars(&mut o, "[wifi]\n");
        push_str_chars(&mut o, "enabled = false\n");
        push_str_chars(&mut o, "device = \"");
        push_str_chars(&mut o, self.wlan_dev);
        push_str_chars(&mut o, "\"\n\n");
        push_str_chars(&mut o, "[wifi_network]\n");
        push_str_chars(&mut o, "ssid = \"");
        push_str_chars(&mut o, self.ssid);
        push_str_chars(&mut o, "\"\n");
        push_str_chars(&mut o, "password = \"");
        push_str_chars(&mut o, self.wpa_passphrase);
        push_str_chars(&mut o, "\"\n");
        push_str_chars(&mut o, "wpa = true\n");
        let ghost a = o@;
        if let Some(channel) = self.channel {
            push_str_chars(&mut o, "channel = ");
            push_str_chars(&mut o, channel);
            push_str_chars(&mut o, "\n");
        }
        push_str_chars(&mut o, "\n");
        push_str_chars(&mut o, "[gadget]\n");
        push_str_chars(&mut o, "enabled = ");
        if self.disable_gadget {
            push_str_chars(&mut o, "false");
        } else {
            push_str_chars(&mut o, "true");
        }
        push_str_chars(&mut o, "\n");
        push_str_chars(&mut o, "pinned = false\n");
        if let Some(udc_extra) = self.udc_extra {
            push_str_chars(&mut o, "udc_extra = \"");
            push_str_chars(&mut o, udc_extra);
            push_str_chars(&mut o, "\"\n");
        }
        push_str_chars(&mut o, "udc_car = \"");
        push_str_chars(&mut o, self.udc);
        push_str_chars(&mut o, "\"\n");
        assert(o@ =~= catplay_text(*self));
        fit_exec(o, CATPLAY_CAP, "catplay config too long")
    }
}

/// Settings of udhcpd's file.
pub struct UdhcpdConfigParams<'a> {
    pub interface: &'a str,
    pub start: &'a str,
    pub end: &'a str,
    pub subnet: &'a str,
    pub instance: &'a str,
}

/// udhcpd's file for the settings `p`.
pub open spec fn udhcpd_text(p: UdhcpdConfigParams) -> Seq<char> {
    "start\t\t"@ + p.start@ + "\n"@ + "end\t\t"@ + p.end@ + "\n"@ + "interface\t"@ + p.interface@
        + "\n"@ + "lease_file\t/var/lib/udhcpd."@ + p.instance@ + ".leases\n"@ + "option\tsubnet\t"@
        + p.subnet@ + "\n"@ + "option\tlease\t864000 # 10 days\n"@
}

/// Writes udhcpd's file; fails when it would not fit `UDHCPD_CAP` bytes.
pub fn format_udhcpd_config(params: &UdhcpdConfigParams) -> (r: Result<String, &'static str>)
    ensures
        match fit(udhcpd_text(*params), UDHCPD_CAP as int, "udhcpd config too long") {
            Ok(t) => r matches Ok(s) && s@ == t,
            Err(e) => r == Err::<String, &'static str>(e),
        },
{
    let mut o: Vec<char> = Vec::new();
    push_str_chars(&mut o, "start\t\t");
    push_str_chars(&mut o, params.start);
    push_str_chars(&mut o, "\n");
    push_str_chars(&mut o, "end\t\t");
    push_str_chars(&mut o, params.end);
    push_str_chars(&mut o, "\n");
    push_str_chars(&mut o, "interface\t");
    push_str_chars(&mut o, params.interface);
    push_str_chars(&mut o, "\n");
    push_str_chars(&mut o, "lease_file\t/var/lib/udhcpd.");
    push_str_chars(&mut o, params.instance);
    push_str_chars(&mut o, ".leases\n");
    push_str_chars(&mut o, "option\tsubnet\t");
    push_str_chars(&mut o, params.subnet);
    push_str_chars(&mut o, "\n");
    push_str_chars(&mut o, "option\tlease\t864000 # 10 days\n");
    assert(o@ =~= udhcpd_text(*params));
    fit_exec(o, UDHCPD_CAP, "udhcpd config too long")
}

/// Settings put into a hostapd or wpa_supplicant template.
pub struct HostapdConfigParams<'a> {
    pub ssid: &'a str,
    pub wpa_passphrase: &'a str,
    pub channel_override: Option<&'a str>,
}

/// `s` starts with `p`.
pub open spec fn starts_with(s: Seq<char>, p: Seq<char>) -> bool {
    s.len() >= p.len() && s.take(p.len() as int) == p
}

/// One template line with the settings put in: `ssid=`, `wpa_passphrase=` and
/// `channel=` lines replaced, and indented `ssid="..."` and `psk="..."` lines replaced
/// keeping their indentation.
pub open spec fn hostapd_line(p: HostapdConfigParams, line: Seq<char>) -> Seq<char> {
    let trimmed = trim_start(line);
    let indent = line.take(line.len() - trimmed.len());
    if starts_with(line, "ssid="@) {
        "ssid="@ + p.ssid@
    } else if starts_with(trimmed, "ssid=\""@) {
        indent + "ssid=\""@ + p.ssid@ + "\""@
    } else if starts_with(line, "wpa_passphrase="@) {
        "wpa_passphrase="@ + p.wpa_passphrase@
    } else if starts_with(trimmed, "psk=\""@) {
        indent + "psk=\""@ + p.wpa_passphrase@ + "\""@
    } else if starts_with(line, "channel="@) {
        match p.channel_override {
            Some(c) => "channel="@ + c@,
            None => line,
        }
    } else {
        line
    }
}

/// The lines `ls`, each with the settings put in and a line feed after it.
pub open spec fn hostapd_lines(p: HostapdConfigParams, ls: Seq<Seq<char>>) -> Seq<char>
    decreases ls.len(),
{
    if ls.len() == 0 {
        seq![]
    } else {
        hostapd_lines(p, ls.drop_last()) + hostapd_line(p, ls.last()) + "\n"@
    }
}

/// A template with the settings put in, line by line; a last line without a line feed
/// stays without one.
pub open spec fn hostapd_text(p: HostapdConfigParams, template: Seq<char>) -> Seq<char> {
    let pieces = split_char(template, '\n');
    let last = pieces.last();
    hostapd_lines(p, pieces.drop_last()) + if last.len() == 0 {
        seq![]
    } else {
        hostapd_line(p, last)
    }
}

fn starts_with_exec(s: &[char], p: &str) -> (r: bool)
    ensures
        r == starts_with(s@, p@),
{
    let pc = chars_of(p);
    if s.len() < pc.len() {
        return false;
    }
    let head = sub_chars(s, 0, pc.len());
    assert(head@ =~= s@.take(pc@.len() as int));
    chars_eq(head.as_slice(), pc.as_slice())
}

impl<'a> HostapdConfigParams<'a> {
    fn push_line(&self, out: &mut Vec<char>, line: &[char])
        ensures
            final(out)@ == old(out)@ + hostapd_line(*self, line@),
    {
        let t = trim_start_index(line);
        let trimmed = sub_chars(line, t, line.len());
        let indent = sub_chars(line, 0, t);
        assert(trimmed@ =~= line@.skip(t as int));
        assert(indent@ =~= line@.take(line@.len() - trim_start(line@).len()));
        if starts_with_exec(line, "ssid=") {
            push_str_chars(out, "ssid=");
            push_str_chars(out, self.ssid);
        } else if starts_with_exec(trimmed.as_slice(), "ssid=\"") {
            push_chars(out, indent.as_slice());
            push_str_chars(out, "ssid=\"");
            push_str_chars(out, self.ssid);
            push_str_chars(out, "\"");
        } else if starts_with_exec(line, "wpa_passphrase=") {
            push_str_chars(out, "wpa_passphrase=");
            push_str_chars(out, self.wpa_passphrase);
        } else if starts_with_exec(trimmed.as_slice(), "psk=\"") {
            push_chars(out, indent.as_slice());
            push_str_chars(out, "psk=\"");
            push_str_chars(out, self.wpa_passphrase);
            push_str_chars(out, "\"");
        } else if starts_with_exec(line, "channel=") {
            match self.channel_override {
                Some(c) => {
                    push_str_chars(out, "channel=");
                    push_str_chars(out, c);
                },
                None => {
                    push_chars(out, line);
                },
            }
        } else {
            push_chars(out, line);
        }
    }

    /// Fills a hostapd or wpa_supplicant template; fails when the result would not fit
    /// `HOSTAPD_CAP` bytes.
    pub fn format(&self, template: &str) -> (r: Result<String, &'static str>)
        ensures
            match fit(hostapd_text(*self, template@), HOSTAPD_CAP as int, "hostapd config too long") {
                Ok(t) => r matches Ok(s) && s@ == t,
                Err(e) => r == Err::<String, &'static str>(e),
            },
    {
        let tc = chars_of(template);
        let pieces = split_char_exec(tc.as_slice(), '\n');
        let ghost ps = seqs_of(pieces@);
        proof {
            crate::props::lemma_split_char_nonempty(tc@, '\n');
        }
        let n = pieces.len();
        let mut out: Vec<char> = Vec::new();
        let mut k: usize = 0;
        assert(ps.drop_last().take(0) =~= Seq::<Seq<char>>::empty());
        while k + 1 < n
            invariant
                n == pieces@.len(),
                n >= 1,
                k + 1 <= n,
                ps == seqs_of(pieces@),
                out@ == hostapd_lines(*self, ps.drop_last().take(k as int)),
            decreases n - k,
        {
            assert(ps.drop_last().take(k + 1).drop_last() =~= ps.drop_last().take(k as int));
            assert(ps.drop_last().take(k + 1).last() == pieces@[k as int]@);
            self.push_line(&mut out, pieces[k].as_slice());
            push_str_chars(&mut out, "\n");
            k = k + 1;
        }
        assert(ps.drop_last().take(k as int) =~= ps.drop_last());
        let last = pieces[n - 1].as_slice();
        assert(last@ == ps.last());
        if last.len() > 0 {
            self.push_line(&mut out, last);
        }
        assert(out@ =~= hostapd_text(*self, template@));
        fit_exec(out, HOSTAPD_CAP, "hostapd config too long")
    }
}

} // verus!

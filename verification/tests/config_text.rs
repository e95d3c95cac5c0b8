use carlinkit_otalib::config::{format_udhcpd_config, CatplayConfig, HostapdConfigParams, UdhcpdConfigParams};

#[test]
fn format_catplay() {
    let config = CatplayConfig {
        ssid: "ssid",
        wpa_passphrase: "pass",
        wlan_dev: "wlan0",
        hci_dev: "hci0",
        name: "name",
        udc: "udc",
        udc_extra: None,
        mfi_bus: "0",
        mfi_dev_addr: "0x10",
        disable_gadget: false,
        channel: Some("48"),
    }
    .format()
    .unwrap();
    assert_eq!(
        config,
        r#"debug = true
persist_dir = "/persist/"

[mfi]
selftest = false

[mfi.i2c]
bus_offset = 0
dev_addr = 0x10
timeout_ms = 1000

[mfi.server]
enabled = true
bind = "0.0.0.0:9000"

[bluetooth]
enabled = false
device = "hci0"
name = "name"

[wifi]
enabled = false
device = "wlan0"

[wifi_network]
ssid = "ssid"
password = "pass"
wpa = true
channel = 48

[gadget]
enabled = true
pinned = false
udc_car = "udc"
"#
    );
}

#[test]
fn format_catplay_without_channel_with_extra_udc() {
    let config = CatplayConfig {
        ssid: "s",
        wpa_passphrase: "p",
        wlan_dev: "wlan0",
        hci_dev: "hci0",
        name: "n",
        udc: "udc0",
        udc_extra: Some("udc1"),
        mfi_bus: "1",
        mfi_dev_addr: "0x11",
        disable_gadget: true,
        channel: None,
    }
    .format()
    .unwrap();
    assert!(config.contains("wpa = true\n\n[gadget]\nenabled = false\npinned = false\nudc_extra = \"udc1\"\nudc_car = \"udc0\"\n"));
    assert!(!config.contains("channel"));
}

#[test]
fn format_catplay_too_long() {
    let long = "x".repeat(1100);
    let r = CatplayConfig {
        ssid: &long,
        wpa_passphrase: "p",
        wlan_dev: "wlan0",
        hci_dev: "hci0",
        name: "n",
        udc: "udc0",
        udc_extra: None,
        mfi_bus: "1",
        mfi_dev_addr: "0x11",
        disable_gadget: false,
        channel: None,
    }
    .format();
    assert_eq!(r, Err("catplay config too long"));
}

#[test]
fn format_hostapd_p2p() {
    let template = r#"ctrl_interface=/var/run/wpa_supplicant
network={
    ssid="C2A_P2P"
    psk="1234qwer"
    key_mgmt=WPA-PSK
}
"#;
    let params = HostapdConfigParams {
        ssid: "ssid",
        wpa_passphrase: "pass",
        channel_override: None,
    };
    let config = params.format(template).unwrap();
    assert_eq!(
        config,
        r#"ctrl_interface=/var/run/wpa_supplicant
network={
    ssid="ssid"
    psk="pass"
    key_mgmt=WPA-PSK
}
"#
    );
}

#[test]
fn format_hostapd_ap_lines() {
    let template = "interface=wlan0\nchannel=36\nssid=old\nwpa=2\nwpa_passphrase=old";
    let params = HostapdConfigParams { ssid: "net", wpa_passphrase: "secret", channel_override: Some("44") };
    assert_eq!(
        params.format(template).unwrap(),
        "interface=wlan0\nchannel=44\nssid=net\nwpa=2\nwpa_passphrase=secret"
    );
    let keep = HostapdConfigParams { ssid: "net", wpa_passphrase: "secret", channel_override: None };
    assert_eq!(
        keep.format("channel=36\n").unwrap(),
        "channel=36\n"
    );
    let long = "x".repeat(2100);
    assert_eq!(keep.format(&long), Err("hostapd config too long"));
}

#[test]
fn format_udhcpd() {
    let config = format_udhcpd_config(&UdhcpdConfigParams {
        interface: "wlan0",
        start: "192.168.50.100",
        end: "192.168.50.200",
        subnet: "255.255.0.0",
        instance: "wifi",
    })
    .unwrap();

    assert_eq!(
        config,
        "start\t\t192.168.50.100\n\
end\t\t192.168.50.200\n\
interface\twlan0\n\
lease_file\t/var/lib/udhcpd.wifi.leases\n\
option\tsubnet\t255.255.0.0\n\
option\tlease\t864000 # 10 days\n"
    );
}

#[test]
fn format_udhcpd_too_long() {
    let long = "x".repeat(300);
    let r = format_udhcpd_config(&UdhcpdConfigParams {
        interface: &long,
        start: "1",
        end: "2",
        subnet: "3",
        instance: "i",
    });
    assert_eq!(r, Err("udhcpd config too long"));
}

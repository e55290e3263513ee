use restty::config::Config;
use restty::terminal::Environment;
use restty::{render_bytes_with_policy, ColorChoice, RunOptions};
use unicode_width::UnicodeWidthStr;

const LSBLK: &str = "NAME        MAJ:MIN RM   SIZE RO TYPE MOUNTPOINTS
nvme0n1     259:0    0 476.9G  0 disk 
├─nvme0n1p1 259:1    0   512M  0 part /boot/efi
├─nvme0n1p2 259:2    0     1G  0 part /boot
└─nvme0n1p3 259:3    0 475.4G  0 part /
sda           8:0    1  28.7G  0 disk 
└─sda1        8:1    1  28.7G  0 part /run/media/usb
";

const FREE: &str = "               total        used        free      shared  buff/cache   available
Mem:        16318264     5912340     4235112      612340     6170812     9412344
Swap:        2097148           0     2097148
";

const IP_ROUTE: &str = "default via 192.168.1.1 dev wlp2s0 proto dhcp src 192.168.1.42 metric 600 
10.8.0.0/24 dev tun0 proto kernel scope link src 10.8.0.6 
172.17.0.0/16 dev docker0 proto kernel scope link src 172.17.0.1 linkdown 
192.168.1.0/24 dev wlp2s0 proto kernel scope link src 192.168.1.42 metric 600 
";

const CASES: &[(&str, &str, &str)] = &[
    ("lsblk", LSBLK, "MOUNTPOINTS"),
    ("free", FREE, "AVAILABLE"),
    ("ip", IP_ROUTE, "DESTINATION"),
];

fn env() -> Environment {
    Environment {
        no_color: false,
        restty_disable: None,
        term: Some("xterm-256color".into()),
        colorterm: None,
        lc_all: Some("C.UTF-8".into()),
        lc_ctype: None,
        lang: None,
        terminal_width: None,
    }
}

#[test]
fn common_linux_commands_render_responsively() {
    let config = Config {
        terminal_profile: "unicode".into(),
        ..Config::default()
    };
    for (source, input, wide_heading) in CASES {
        for width in [32, 72, 120] {
            let output = render_bytes_with_policy(
                input.as_bytes(),
                &RunOptions {
                    source: (*source).into(),
                    width: Some(width),
                    force: true,
                    color: ColorChoice::Never,
                },
                &config,
                false,
                false,
                &env(),
                false,
                None,
                0,
            );
            let output = std::str::from_utf8(&output).unwrap();
            assert!(output.starts_with('╭'), "{source} was not formatted at {width}");
            assert!(
                output.lines().all(|line| UnicodeWidthStr::width(line) <= width),
                "{source} exceeded {width} columns:\n{output}"
            );
            if width == 120 {
                assert!(output.contains(wide_heading));
            }
        }
    }
}

use bandmeter::addr::parse_addr;
use bandmeter::common::Addr;
fn v6(seg: [u16; 8]) -> String {
    let mut o = [0u8; 16];
    for i in 0..8 {
        o[2 * i] = (seg[i] >> 8) as u8;
        o[2 * i + 1] = seg[i] as u8;
    }
    parse_addr(&Addr::Addr6(o))
}

#[test]
fn ipv4_from_kernel_word() {
    // The kernel stores the octets 127.0.0.1 in memory order; the daemon hands
    // the library the bytes of that word as they lie in memory.
    let word = u32::from_ne_bytes([127, 0, 0, 1]);
    assert_eq!(parse_addr(&Addr::Addr4(word.to_ne_bytes())), "127.0.0.1");
    assert_eq!(parse_addr(&Addr::Addr4([192, 168, 10, 254])), "192.168.10.254");
    assert_eq!(parse_addr(&Addr::Addr4([0, 0, 0, 0])), "0.0.0.0");
    assert_eq!(parse_addr(&Addr::Addr4([255, 255, 255, 255])), "255.255.255.255");
}

#[test]
fn ipv6_compression() {
    assert_eq!(v6([0, 0, 0, 0, 0, 0, 0, 0]), "::");
    assert_eq!(v6([0, 0, 0, 0, 0, 0, 0, 1]), "::1");
    assert_eq!(v6([0x2001, 0xdb8, 0, 0, 0, 0, 0, 1]), "2001:db8::1");
    assert_eq!(v6([0x2001, 0xdb8, 0, 1, 1, 1, 1, 1]), "2001:db8:0:1:1:1:1:1");
    assert_eq!(v6([0x2001, 0, 0, 1, 0, 0, 0, 1]), "2001:0:0:1::1");
    assert_eq!(v6([0x2001, 0xdb8, 0, 0, 1, 0, 0, 1]), "2001:db8::1:0:0:1");
    assert_eq!(v6([0xfe80, 0, 0, 0, 0, 0, 0xabcd, 0xef01]), "fe80::abcd:ef01");
    assert_eq!(v6([0, 0, 0, 0, 0, 0xffff, 0x0a00, 0x0001]), "::ffff:10.0.0.1");
    assert_eq!(v6([1, 2, 3, 4, 5, 6, 7, 0]), "1:2:3:4:5:6:7:0");
    assert_eq!(v6([1, 0, 0, 4, 5, 0, 0, 0]), "1:0:0:4:5::");
    assert_eq!(v6([0xffff, 0xffff, 0xffff, 0xffff, 0xffff, 0xffff, 0xffff, 0xffff]), "ffff:ffff:ffff:ffff:ffff:ffff:ffff:ffff");
    assert_eq!(v6([0, 0, 0, 0, 0, 0, 0x0a00, 0x0001]), "::a00:1");
    assert_eq!(v6([0, 0, 0, 0, 0, 0xfffe, 0x0a00, 0x0001]), "::fffe:a00:1");
}

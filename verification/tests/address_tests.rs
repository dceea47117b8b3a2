use ws_inspector::address::{check_server, IpAddress, SocketAddress};
use ws_inspector::error::ServerError;

fn v4(a: u8, b: u8, c: u8, d: u8, port: u16) -> SocketAddress {
    SocketAddress { ip: IpAddress::V4 { a, b, c, d }, port }
}

fn v6(segs: [u16; 8], port: u16) -> SocketAddress {
    SocketAddress {
        ip: IpAddress::V6 {
            s0: segs[0],
            s1: segs[1],
            s2: segs[2],
            s3: segs[3],
            s4: segs[4],
            s5: segs[5],
            s6: segs[6],
            s7: segs[7],
        },
        port,
    }
}

#[test]
fn parses_plain_ipv4() {
    assert_eq!(check_server("127.0.0.1:8080"), Ok(v4(127, 0, 0, 1, 8080)));
    assert_eq!(check_server("0.0.0.0:80"), Ok(v4(0, 0, 0, 0, 80)));
    assert_eq!(check_server("255.255.255.255:65535"), Ok(v4(255, 255, 255, 255, 65535)));
}

#[test]
fn parses_ephemeral_port() {
    assert_eq!(check_server("127.0.0.1:0"), Ok(v4(127, 0, 0, 1, 0)));
}

#[test]
fn rejects_malformed_ipv4() {
    assert!(check_server("127.0.0.1").is_err());
    assert!(check_server("256.0.0.1:80").is_err());
    assert!(check_server("01.2.3.4:80").is_err());
    assert!(check_server("1.2.3:80").is_err());
    assert!(check_server("1.2.3.4.5:80").is_err());
    assert!(check_server("1.2.3.4:65536").is_err());
    assert!(check_server("1.2.3.4:").is_err());
    assert!(check_server(":80").is_err());
    assert!(check_server("").is_err());
    assert!(check_server("1.2.3.4:8:0").is_err());
    assert!(check_server("a.b.c.d:80").is_err());
    assert!(check_server(" 1.2.3.4:80").is_err());
}

#[test]
fn parses_full_ipv6() {
    assert_eq!(
        check_server("[1:2:3:4:5:6:7:8]:9"),
        Ok(v6([1, 2, 3, 4, 5, 6, 7, 8], 9))
    );
    assert_eq!(
        check_server("[2001:db8:0:0:0:0:0:1]:443"),
        Ok(v6([0x2001, 0xdb8, 0, 0, 0, 0, 0, 1], 443))
    );
    assert_eq!(
        check_server("[ABCD:ef01:0:0:0:0:0:0]:1"),
        Ok(v6([0xabcd, 0xef01, 0, 0, 0, 0, 0, 0], 1))
    );
}

#[test]
fn parses_compressed_ipv6() {
    assert_eq!(check_server("[::1]:8080"), Ok(v6([0, 0, 0, 0, 0, 0, 0, 1], 8080)));
    assert_eq!(check_server("[::]:80"), Ok(v6([0, 0, 0, 0, 0, 0, 0, 0], 80)));
    assert_eq!(
        check_server("[2001:db8::1]:443"),
        Ok(v6([0x2001, 0xdb8, 0, 0, 0, 0, 0, 1], 443))
    );
    assert_eq!(check_server("[fe80::]:22"), Ok(v6([0xfe80, 0, 0, 0, 0, 0, 0, 0], 22)));
    assert_eq!(
        check_server("[1:2:3:4:5:6:7::]:80"),
        Ok(v6([1, 2, 3, 4, 5, 6, 7, 0], 80))
    );
}

#[test]
fn rejects_malformed_ipv6() {
    assert!(check_server("[1:2:3:4:5:6:7:8:9]:80").is_err());
    assert!(check_server("[1:2:3:4:5:6:7]:80").is_err());
    assert!(check_server("[1::2::3]:80").is_err());
    assert!(check_server("[12345::]:80").is_err());
    assert!(check_server("[]:80").is_err());
    assert!(check_server("[:::]:80").is_err());
    assert!(check_server("[::1]").is_err());
    assert!(check_server("[::1]80").is_err());
    assert!(check_server("[::1:80").is_err());
    assert!(check_server("::1]:80").is_err());
    assert!(check_server("[g::1]:80").is_err());
    assert!(check_server("[1:2:3:4:5:6:7:8::]:80").is_err());
}

#[test]
fn ports_are_canonical_decimals() {
    assert!(check_server("1.2.3.4:080").is_err());
    assert!(check_server("1.2.3.4:00").is_err());
    assert_eq!(check_server("[::1]:65535"), Ok(v6([0, 0, 0, 0, 0, 0, 0, 1], 65535)));
    assert!(check_server("[::1]:65536").is_err());
}

#[test]
fn address_error_message() {
    let e = check_server("nonsense").unwrap_err();
    assert!(matches!(e, ServerError::AddressError(_)));
    assert_eq!(e.message(), "AddressError: invalid socket address syntax");
}

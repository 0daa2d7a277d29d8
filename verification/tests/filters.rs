//! Tests of the filter library: template-level renders and direct calls.

use jinga::ip::{ipaddr, ipsubnet, nthhost};
use jinga::resolve::render_template;
use jinga::text::{contains_marker, dec_string, parse_i32, parse_usize, str_eq};

fn assert_render(tmpl_str: &str, expected: &str) {
    let actual = render_template(tmpl_str).expect("template should render");
    assert_eq!(actual, expected, "template: {tmpl_str}");
}

#[test]
fn test_string() {
    assert_render("{{ 'abc' | string }}", "abc");
    assert_render("{{ false | string }}", "false");
    assert_render("{{ 1 | string }}", "1");
}

#[test]
fn test_int() {
    assert_render("{{ '7' | int }}", "7");
}

#[test]
fn test_nthhost() {
    assert_render("{{ '10.0.0.0/8' | nthhost(0) }}", "10.0.0.0");
    assert_render("{{ '10.0.0.0/8' | nthhost(1) }}", "10.0.0.1");
}

#[test]
fn test_ipaddr() {
    assert_render("{{ '10.0.0.0/8' | ipaddr('0') }}", "10.0.0.0");
    assert_render("{{ '10.0.0.0/8' | ipaddr('1') }}", "10.0.0.1");
    assert_render("{{ '10.0.0.0/8' | ipaddr('address') }}", "10.0.0.0");
    assert_render("{{ '10.0.0.0' | ipaddr('address') }}", "10.0.0.0");
    assert_render(
        "{{ '169.254.0.0/30' | ipaddr('2') | ipaddr('address') }}",
        "169.254.0.2",
    );
}

#[test]
fn test_ipsubnet() {
    assert_render("{{ '100.73.148.0/22' | ipsubnet(24, 3) }}", "100.73.151.0/24");
}

#[test]
fn nthhost_direct() {
    assert_eq!(nthhost("10.0.0.0/8".to_string(), 0).unwrap(), "10.0.0.0");
    assert_eq!(nthhost("10.0.0.0/8".to_string(), 1).unwrap(), "10.0.0.1");
    assert_eq!(nthhost("10.0.0.0/30".to_string(), 2).unwrap(), "10.0.0.2");
    // a /30 network has two usable hosts
    assert!(nthhost("10.0.0.0/30".to_string(), 3).is_err());
    // /31 and /32 networks count every address as a host
    assert_eq!(nthhost("10.0.0.0/31".to_string(), 2).unwrap(), "10.0.0.1");
    assert_eq!(nthhost("10.0.0.7/32".to_string(), 1).unwrap(), "10.0.0.7");
    // the network address of a CIDR with host bits set
    assert_eq!(nthhost("10.5.6.7/8".to_string(), 0).unwrap(), "10.0.0.0");
    // the top of the address space formats with every octet at its maximum
    assert_eq!(
        nthhost("255.255.255.254/31".to_string(), 2).unwrap(),
        "255.255.255.255"
    );
    assert!(nthhost("not a network".to_string(), 0).is_err());
    assert!(nthhost("10.0.0.1".to_string(), 0).is_err());
}

#[test]
fn nthhost_v6() {
    // IPv6 hosts start at the network address itself
    assert_eq!(nthhost("fd00::/126".to_string(), 1).unwrap(), "fd00::");
    assert_eq!(nthhost("fd00::/126".to_string(), 2).unwrap(), "fd00::1");
    assert_eq!(nthhost("fd00::/126".to_string(), 4).unwrap(), "fd00::3");
    assert!(nthhost("fd00::/126".to_string(), 5).is_err());
    assert_eq!(nthhost("fd00::/32".to_string(), 1).unwrap(), "fd00::");
}

#[test]
fn ipaddr_direct() {
    assert_eq!(
        ipaddr("10.0.0.0/8".to_string(), Some("address")).unwrap(),
        "10.0.0.0"
    );
    // an unparseable network falls back to the input unchanged
    assert_eq!(
        ipaddr("10.0.0.5".to_string(), Some("address")).unwrap(),
        "10.0.0.5"
    );
    // an unknown action falls back to the input unchanged
    assert_eq!(
        ipaddr("10.0.0.0/8".to_string(), Some("broadcast")).unwrap(),
        "10.0.0.0/8"
    );
    assert_eq!(ipaddr("10.0.0.0/8".to_string(), None).unwrap(), "10.0.0.0/8");
    // a numeric action behaves as nthhost, errors included
    assert_eq!(ipaddr("10.0.0.0/8".to_string(), Some("2")).unwrap(), "10.0.0.2");
    assert!(ipaddr("bad".to_string(), Some("2")).is_err());
}

#[test]
fn ipsubnet_direct() {
    assert_eq!(
        ipsubnet("100.73.148.0/22".to_string(), 24, 3).unwrap(),
        "100.73.151.0/24"
    );
    assert_eq!(
        ipsubnet("10.0.0.0/24".to_string(), 26, 0).unwrap(),
        "10.0.0.0/26"
    );
    assert_eq!(
        ipsubnet("10.0.0.0/24".to_string(), 26, 3).unwrap(),
        "10.0.0.192/26"
    );
    // the index runs out after 2^(new - old) subnets
    assert!(ipsubnet("10.0.0.0/24".to_string(), 26, 4).is_err());
    // a prefix shorter than the base network's is no subdivision
    assert!(ipsubnet("10.0.0.0/24".to_string(), 23, 0).is_err());
    assert!(ipsubnet("10.0.0.0/24".to_string(), 33, 0).is_err());
    assert!(ipsubnet("nonsense".to_string(), 24, 0).is_err());
    // a bare address is promoted to a network at the requested length
    assert_eq!(
        ipsubnet("100.73.148.0".to_string(), 24, 0).unwrap(),
        "100.73.148.0/24"
    );
    assert!(ipsubnet("100.73.148.0".to_string(), 24, 1).is_err());
    // IPv6 subdivision
    assert_eq!(
        ipsubnet("fd00::/16".to_string(), 18, 1).unwrap(),
        "fd00:4000::/18"
    );
}

#[test]
fn parse_numbers() {
    assert_eq!(parse_usize("0"), Some(0));
    assert_eq!(parse_usize("42"), Some(42));
    assert_eq!(parse_usize("+42"), Some(42));
    assert_eq!(parse_usize(""), None);
    assert_eq!(parse_usize("+"), None);
    assert_eq!(parse_usize("4x"), None);
    assert_eq!(parse_usize("-4"), None);
    assert_eq!(parse_usize("99999999999999999999999999"), None);
    assert_eq!(parse_i32("7"), Some(7));
    assert_eq!(parse_i32("-7"), Some(-7));
    assert_eq!(parse_i32("+7"), Some(7));
    assert_eq!(parse_i32("2147483647"), Some(i32::MAX));
    assert_eq!(parse_i32("2147483648"), None);
    assert_eq!(parse_i32("-2147483648"), Some(i32::MIN));
    assert_eq!(parse_i32("-2147483649"), None);
    assert_eq!(parse_i32("12a"), None);
    assert_eq!(parse_i32(""), None);
    assert_eq!(parse_i32("-"), None);
}

#[test]
fn int_filter_errors() {
    assert!(render_template("{{ 'x7' | int }}").is_err());
    assert_render("{{ '-12' | int }}", "-12");
}

#[test]
fn text_utilities() {
    assert!(contains_marker("a {{ b }} c"));
    assert!(contains_marker("{{"));
    assert!(!contains_marker("{ {"));
    assert!(!contains_marker(""));
    assert!(!contains_marker("}"));
    assert!(str_eq("abc", "abc"));
    assert!(!str_eq("abc", "abd"));
    assert!(!str_eq("abc", "ab"));
    assert_eq!(dec_string(0), "0");
    assert_eq!(dec_string(255), "255");
    assert_eq!(dec_string(10), "10");
}

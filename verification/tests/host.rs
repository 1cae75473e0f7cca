use macvm::bundle::{bootstrap_payload, Bootstrap};
use macvm::frontend::boot_timing::{classdef, doit, enabled, method, parse, primordial, report, start, BootReport};
use macvm::text::{push_dec, push_hex, push_int, read_byte, text_eq};
use macvm::{assert_native_host, host_arch, host_os, BuildTarget, TargetArch, TargetOs};

fn built_for() -> BuildTarget {
    BuildTarget { arch: TargetArch::X86_64, os: TargetOs::Other }
}

#[test]
fn arch_assert_native_arm64() {
    let t = built_for();
    assert!(assert_native_host(t).is_ok());
    if t.os == TargetOs::Windows {
        assert_eq!(host_arch(t), "aarch64");
        assert_eq!(host_os(t), "windows");
    }
    let native = BuildTarget { arch: TargetArch::Aarch64, os: TargetOs::Windows };
    assert!(assert_native_host(native).is_ok());
    assert_eq!(host_arch(native), "aarch64");
    assert_eq!(host_os(native), "windows");
    let translated = BuildTarget { arch: TargetArch::X86_64, os: TargetOs::Windows };
    let m = assert_native_host(translated).unwrap_err();
    assert!(m.starts_with("macvm: this is a x86_64 build on Windows."));
}

#[test]
fn other_hosts_have_names() {
    let none = BuildTarget { arch: TargetArch::Other, os: TargetOs::Other };
    assert_eq!(host_arch(none), "other");
    assert_eq!(host_os(none), "other");
    assert_eq!(host_os(BuildTarget { os: TargetOs::Macos, ..none }), "macos");
}

#[test]
fn a_host_is_refused_by_its_names() {
    for arch in [TargetArch::Aarch64, TargetArch::X86_64, TargetArch::Other] {
        for os in [TargetOs::Macos, TargetOs::Windows, TargetOs::Other] {
            let t = BuildTarget { arch, os };
            let refused = host_os(t) == "windows" && host_arch(t) != "aarch64";
            assert_eq!(assert_native_host(t).is_err(), refused);
        }
    }
}

#[test]
fn a_bundle_is_copied_when_its_version_changes() {
    let v = |s: &str| Some(s.as_bytes().to_vec());
    assert_eq!(bootstrap_payload(false, true, &v("a"), &None), Bootstrap::Nothing);
    assert_eq!(bootstrap_payload(false, false, &None, &None), Bootstrap::Nothing);
    assert_eq!(bootstrap_payload(true, false, &v("a"), &None), Bootstrap::NoHome);
    assert_eq!(bootstrap_payload(true, false, &None, &None), Bootstrap::NoHome);
    assert_eq!(bootstrap_payload(true, true, &v("a"), &None), Bootstrap::Run { refresh: true });
    assert_eq!(bootstrap_payload(true, true, &v("a"), &v("b")), Bootstrap::Run { refresh: true });
    assert_eq!(bootstrap_payload(true, true, &v("a"), &v("ab")), Bootstrap::Run { refresh: true });
    assert_eq!(bootstrap_payload(true, true, &v("a"), &v("a")), Bootstrap::Run { refresh: false });
    assert_eq!(bootstrap_payload(true, true, &None, &v("a")), Bootstrap::Run { refresh: false });
}

#[test]
fn a_bundle_without_a_home_is_still_detected() {
    let v = Some(b"a".to_vec());
    assert!(bootstrap_payload(true, false, &v, &None).detected());
    assert!(bootstrap_payload(true, true, &v, &v).detected());
    assert!(bootstrap_payload(true, true, &v, &None).detected());
    assert!(!bootstrap_payload(false, true, &v, &None).detected());
    assert!(!bootstrap_payload(false, false, &v, &None).detected());
}

#[test]
fn phases_are_added_up() {
    let mut t = start(true);
    assert!(enabled(&t));
    primordial(&mut t, 5);
    parse(&mut t, 10);
    classdef(&mut t, 40);
    classdef(&mut t, 10);
    method(&mut t, 30);
    doit(&mut t, 7);
    let r = report(&mut t, 100).unwrap();
    assert_eq!(
        r,
        BootReport {
            total_ns: 105,
            primordial_ns: 5,
            parse_ns: 10,
            shape_ns: 20,
            methods_ns: 30,
            doits_ns: 7,
            other_ns: 33,
            classes: 2,
            methods: 1,
            doits: 1,
        }
    );
    assert_eq!(t, start(true));
    let mut off = start(false);
    parse(&mut off, 10);
    assert_eq!(off, start(false));
    assert_eq!(report(&mut off, 1), None);
}

#[test]
fn texts_of_numbers() {
    let mut s = String::new();
    push_dec(&mut s, 0);
    push_dec(&mut s, 1234567890);
    push_int(&mut s, -12);
    push_int(&mut s, i64::MIN);
    push_hex(&mut s, 0xAB, 6);
    push_hex(&mut s, u64::MAX, 1);
    assert_eq!(s, "01234567890-12-92233720368547758080000abffffffffffffffff");
    assert!(text_eq("ab", "ab"));
    assert!(!text_eq("ab", "a"));
    assert_eq!(read_byte(" +17\n"), Some(17));
    assert_eq!(read_byte("256"), None);
    assert_eq!(read_byte(""), None);
}

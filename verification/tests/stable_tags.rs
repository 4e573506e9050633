use std::cmp::Ordering;

use clawyer::tag::{parse_stable_tag, StableTag};

#[test]
fn parses_plain_stable_tags() {
    let parsed = parse_stable_tag("v2026.3.12").expect("stable tag");
    assert_eq!(
        parsed,
        StableTag {
            tag: "v2026.3.12".into(),
            year: 2026,
            major: 3,
            minor: 12,
            legacy_patch: 0,
        }
    );
}

#[test]
fn parses_legacy_patch_stable_tags() {
    let parsed = parse_stable_tag("v2026.3.13-1").expect("legacy stable tag");
    assert_eq!(parsed.legacy_patch, 1);
    assert_eq!(parsed.tag, "v2026.3.13-1");
}

#[test]
fn rejects_beta_tags() {
    assert!(parse_stable_tag("v2026.3.13-beta.1").is_none());
    assert!(parse_stable_tag("v2026.3.13.beta.1").is_none());
}

#[test]
fn orders_legacy_patch_after_plain_release() {
    let plain = parse_stable_tag("v2026.3.13").expect("plain");
    let patched = parse_stable_tag("v2026.3.13-1").expect("patched");
    assert!(patched > plain);
}

#[test]
fn stable_tag_needs_leading_v() {
    assert!(parse_stable_tag("2026.3.12").is_none());
    assert!(parse_stable_tag("V2026.3.12").is_none());
    assert!(parse_stable_tag("").is_none());
    assert!(parse_stable_tag("v").is_none());
}

#[test]
fn stable_tag_needs_exactly_three_numbers() {
    assert!(parse_stable_tag("v2026.3").is_none());
    assert!(parse_stable_tag("v2026.3.12.1").is_none());
    assert!(parse_stable_tag("v2026..12").is_none());
    assert!(parse_stable_tag("v2026.3.12-").is_none());
    assert!(parse_stable_tag("v2026.3.x").is_none());
    assert!(parse_stable_tag("v2026.3.12-rc1").is_none());
}

#[test]
fn stable_tag_numbers_read_like_u32_from_str() {
    let t = parse_stable_tag("v+2026.03.0012-+7").expect("plus signs and zeros");
    assert_eq!((t.year, t.major, t.minor, t.legacy_patch), (2026, 3, 12, 7));
    let max = parse_stable_tag("v4294967295.0.0").expect("largest u32");
    assert_eq!(max.year, u32::MAX);
    assert!(parse_stable_tag("v4294967296.0.0").is_none());
    assert!(parse_stable_tag("v-1.0.0").is_none());
    assert!(parse_stable_tag("v1.0.0-1-2").is_none());
}

#[test]
fn stable_tag_beta_anywhere_is_rejected() {
    assert!(parse_stable_tag("vbeta1.2.3").is_none());
    assert!(parse_stable_tag("v1.2.3-beta").is_none());
    assert!(parse_stable_tag("v1.2.3-1beta").is_none());
    assert!(parse_stable_tag("v1.2.3-1").is_some());
}

#[test]
fn stable_tags_order_by_numbers_not_text() {
    let a = parse_stable_tag("v2025.12.31").unwrap();
    let b = parse_stable_tag("v2026.1.1").unwrap();
    let c = parse_stable_tag("v2026.1.2").unwrap();
    let d = parse_stable_tag("v2026.2.0").unwrap();
    assert!(a < b && b < c && c < d);
    assert_eq!(b.cmp(&b), Ordering::Equal);
    assert_eq!(d.cmp(&a), Ordering::Greater);
    assert_eq!(a.partial_cmp(&d), Some(Ordering::Less));
    let padded = parse_stable_tag("v2026.01.02").unwrap();
    assert_eq!(padded.partial_cmp(&c), Some(Ordering::Equal));
    assert_ne!(padded, c);
}

#[test]
fn legacy_patch_law_on_values() {
    let plain = parse_stable_tag("v2026.3.13").unwrap();
    for n in ["1", "2", "10", "+3"] {
        let patched = parse_stable_tag(&format!("v2026.3.13-{n}")).unwrap();
        assert_eq!((patched.year, patched.major, patched.minor), (2026, 3, 13));
        assert!(patched > plain);
    }
    let zero = parse_stable_tag("v2026.3.13-0").unwrap();
    assert_eq!(zero.partial_cmp(&plain), Some(Ordering::Equal));
}

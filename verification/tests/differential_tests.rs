//! The comparison two engines' outcomes are held to.

use burrow_engines::differential::{divergences, Divergence};
use burrow_engines::digest::{hex, hex_of};

#[test]
fn the_differential_names_every_kind_of_divergence() {
    let native = vec![
        ("a".to_owned(), "OK 11 report 22".to_owned()),
        ("b".to_owned(), "ERR Malformed(\"x [r]: y\")".to_owned()),
    ];
    assert!(divergences(&native, &native).is_empty());
    let mut changed = native.clone();
    changed[0].1 = "OK 12 report 22".to_owned();
    assert_eq!(divergences(&native, &changed).len(), 1);
    let mut reworded = native.clone();
    reworded[1].1 = "ERR Malformed(\"x [r]: z\")".to_owned();
    assert_eq!(divergences(&native, &reworded).len(), 1);
    assert_eq!(
        divergences(&native, &native[..1]).len(),
        2,
        "a missing case and the count"
    );
}

#[test]
fn each_kind_of_divergence_is_named_with_what_differs() {
    let native = vec![
        ("a".to_owned(), "OK 1".to_owned()),
        ("b".to_owned(), "OK 2".to_owned()),
    ];
    let web = vec![("a".to_owned(), "OK 9".to_owned())];
    let found = divergences(&native, &web);
    assert_eq!(found.len(), 3);
    match &found[0] {
        Divergence::Changed { case, native, web } => {
            assert_eq!((case.as_str(), native.as_str(), web.as_str()), ("a", "OK 1", "OK 9"));
        }
        other => panic!("expected a changed outcome first, got {other:?}"),
    }
    assert!(matches!(&found[1], Divergence::Missing { case } if case == "b"));
    assert!(matches!(found[2], Divergence::Count { native: 2, web: 1 }));
}

#[test]
fn a_case_recorded_twice_counts_once_and_the_last_outcome_is_compared() {
    let native = vec![("a".to_owned(), "OK 2".to_owned())];
    let web = vec![("a".to_owned(), "OK 1".to_owned()), ("a".to_owned(), "OK 2".to_owned())];
    assert!(divergences(&native, &web).is_empty());
}

#[test]
fn hex_is_two_lowercase_digits_a_byte() {
    assert_eq!(hex_of(&[0x00, 0x0f, 0xa5, 0xff]), "000fa5ff");
    assert_eq!(hex_of(&[]), "");
}

#[test]
fn the_fingerprint_is_the_sha256_of_the_bytes() {
    assert_eq!(hex(b"abc"), "ba7816bf8f01cfea414140de5dae2223b00361a396177a9cb410ff61f20015ad");
    assert_eq!(hex(b""), "e3b0c44298fc1c149afbf4c8996fb92427ae41e4649b934ca495991b7852b855");
}

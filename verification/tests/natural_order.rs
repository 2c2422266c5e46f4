use quspec::natural::natural_cmp;
use std::cmp::Ordering;

#[test]
fn numbers_compare_by_value() {
    assert_eq!(natural_cmp("track2", "track10"), Ordering::Less);
    assert_eq!(natural_cmp("track10", "track2"), Ordering::Greater);
    assert_eq!(natural_cmp("2 intro", "10 outro"), Ordering::Less);
}

#[test]
fn leading_zeros_do_not_count() {
    assert_eq!(natural_cmp("file01", "file1"), Ordering::Equal);
    assert_eq!(natural_cmp("007", "7"), Ordering::Equal);
    assert_eq!(natural_cmp("file010", "file9"), Ordering::Greater);
}

#[test]
fn letters_ignore_ascii_case() {
    assert_eq!(natural_cmp("Alpha", "alpha"), Ordering::Equal);
    assert_eq!(natural_cmp("alpha", "Beta"), Ordering::Less);
    assert_eq!(natural_cmp("ZETA", "alpha"), Ordering::Greater);
}

#[test]
fn shorter_prefix_sorts_first() {
    assert_eq!(natural_cmp("", ""), Ordering::Equal);
    assert_eq!(natural_cmp("", "a"), Ordering::Less);
    assert_eq!(natural_cmp("abc", "ab"), Ordering::Greater);
    assert_eq!(natural_cmp("song", "song1"), Ordering::Less);
}

#[test]
fn digits_against_other_characters_compare_by_code() {
    // '1' (0x31) comes before 'a' (0x61) and after ' ' (0x20)
    assert_eq!(natural_cmp("1", "a"), Ordering::Less);
    assert_eq!(natural_cmp("a", "1"), Ordering::Greater);
    assert_eq!(natural_cmp(" ", "1"), Ordering::Less);
}

#[test]
fn long_digit_runs_compare_by_value() {
    assert_eq!(
        natural_cmp("a99999999999999999999", "a100000000000000000000"),
        Ordering::Less
    );
    assert_eq!(
        natural_cmp("x18446744073709551616", "x18446744073709551615"),
        Ordering::Greater
    );
}

#[test]
fn comparison_continues_after_equal_numbers() {
    assert_eq!(natural_cmp("disc1-track3", "disc1-track12"), Ordering::Less);
    assert_eq!(natural_cmp("disc2-track1", "disc1-track12"), Ordering::Greater);
}

#[test]
fn non_ascii_characters_compare_by_code_point() {
    assert_eq!(natural_cmp("é", "e"), Ordering::Greater);
    assert_eq!(natural_cmp("Ä", "ä"), Ordering::Less);
}

#[test]
fn order_is_antisymmetric_and_transitive_on_samples() {
    let names = ["a1", "A01", "a2", "a10", "b", "B1", "", "1", "z9z", "z10a"];
    for x in names.iter() {
        assert_eq!(natural_cmp(x, x), Ordering::Equal);
        for y in names.iter() {
            assert_eq!(natural_cmp(x, y), natural_cmp(y, x).reverse());
            for z in names.iter() {
                if natural_cmp(x, y) != Ordering::Greater && natural_cmp(y, z) != Ordering::Greater {
                    assert_ne!(natural_cmp(x, z), Ordering::Greater);
                }
            }
        }
    }
}

use std::cmp::Ordering;
use videothumb::natural_order::natural_cmp;

#[test]
fn numbers_compare_by_value() {
    assert_eq!(natural_cmp("img2.jpg", "img10.jpg"), Ordering::Less);
    assert_eq!(natural_cmp("img10.jpg", "img2.jpg"), Ordering::Greater);
    assert_eq!(natural_cmp("frame_099.png", "frame_100.png"), Ordering::Less);
}

#[test]
fn fewer_leading_zeros_first() {
    assert_eq!(natural_cmp("a1", "a01"), Ordering::Less);
    assert_eq!(natural_cmp("file009", "file9"), Ordering::Greater);
    assert_eq!(natural_cmp("0", "00"), Ordering::Less);
}

#[test]
fn letters_ignore_ascii_case() {
    assert_eq!(natural_cmp("ABC", "abc"), Ordering::Equal);
    assert_eq!(natural_cmp("Beta", "alpha"), Ordering::Greater);
    assert_eq!(natural_cmp("a", "B"), Ordering::Less);
}

#[test]
fn shorter_prefix_first() {
    assert_eq!(natural_cmp("x", "x0"), Ordering::Less);
    assert_eq!(natural_cmp("", "a"), Ordering::Less);
    assert_eq!(natural_cmp("", ""), Ordering::Equal);
}

#[test]
fn digits_sort_before_letters() {
    assert_eq!(natural_cmp("1", "a"), Ordering::Less);
    assert_eq!(natural_cmp("_", "1"), Ordering::Greater);
}

#[test]
fn order_is_antisymmetric_and_transitive_on_examples() {
    let names = ["img1.png", "IMG01.png", "img2.png", "img10.png", "img", "img1", "a", "Z9"];
    for a in names {
        assert_eq!(natural_cmp(a, a), Ordering::Equal);
        for b in names {
            assert_eq!(natural_cmp(a, b), natural_cmp(b, a).reverse());
            for c in names {
                if natural_cmp(a, b) != Ordering::Greater && natural_cmp(b, c) != Ordering::Greater {
                    assert_ne!(natural_cmp(a, c), Ordering::Greater);
                }
            }
        }
    }
}

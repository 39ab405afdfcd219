use md_peruse::natural_order::natural_cmp;
use std::cmp::Ordering;

#[test]
fn names_are_compared_in_natural_order() {
    let cases = [
        ("a2.md", "a10.md", Ordering::Less),
        ("a10.md", "a2.md", Ordering::Greater),
        ("01-intro.md", "10-api.md", Ordering::Less),
        ("1.md", "10.md", Ordering::Less),
        ("a001.md", "a01.md", Ordering::Less),
        ("a01.md", "a1.md", Ordering::Less),
        ("01.md", "1.md", Ordering::Less),
        ("a.md", "a1.md", Ordering::Less),
        ("a1.md", "a1b.md", Ordering::Less),
        ("1a.md", "a1.md", Ordering::Less),
        ("apple.md", "Banana.md", Ordering::Less),
        ("Apple.md", "banana.md", Ordering::Less),
        ("file1v2.md", "file1v10.md", Ordering::Less),
        ("v1/a.md", "v10/a.md", Ordering::Less),
        (
            "99999999999999999999.md",
            "100000000000000000000.md",
            Ordering::Less,
        ),
        ("_a.md", "a.md", Ordering::Less),
        ("a.md", "a.md", Ordering::Equal),
    ];
    for (left, right, expected) in cases {
        assert_eq!(natural_cmp(left, right), expected, "{left} vs {right}");
        assert_eq!(
            natural_cmp(right, left),
            expected.reverse(),
            "{right} vs {left}"
        );
    }
}

#[test]
fn comparison_is_a_total_order() {
    assert_eq!(natural_cmp("A1.md", "a1.md"), Ordering::Less);
    assert_eq!(natural_cmp("a1.md", "A1.md"), Ordering::Greater);
}

#[test]
fn sorting_matches_the_expected_order() {
    let mut names = vec![
        "10-api.md",
        "2-setup.md",
        "01-intro.md",
        "readme.md",
        "a01.md",
        "a1.md",
        "a.md",
        "A.markdown",
    ];
    names.sort_by(|a, b| natural_cmp(a, b));
    assert_eq!(
        names,
        [
            "01-intro.md",
            "2-setup.md",
            "10-api.md",
            "A.markdown",
            "a.md",
            "a01.md",
            "a1.md",
            "readme.md",
        ]
    );
}

#[test]
fn comparison_is_transitive_and_antisymmetric_on_samples() {
    let names = [
        "", "a", "A", "a1", "a01", "a001", "a2", "a10", "1", "01", "10", "1a", "a.md", "a1.md",
        "_a", "b", "B1", "Z", "z9", "~", "!", "0", "00", "a0", "ä", "Ä1",
    ];
    for a in names {
        assert_eq!(natural_cmp(a, a), Ordering::Equal, "{a}");
        for b in names {
            assert_eq!(natural_cmp(a, b), natural_cmp(b, a).reverse(), "{a} {b}");
            if a != b {
                assert_ne!(natural_cmp(a, b), Ordering::Equal, "{a} {b}");
            }
            for c in names {
                if natural_cmp(a, b) == Ordering::Less && natural_cmp(b, c) == Ordering::Less {
                    assert_eq!(natural_cmp(a, c), Ordering::Less, "{a} {b} {c}");
                }
            }
        }
    }
}

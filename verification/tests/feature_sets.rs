use windows_features::features::FeatureSet;

#[test]
fn names_are_listed_once_and_sorted() {
    let mut set = FeatureSet::new();
    assert!(set.is_empty());
    for name in ["b", "a", "c", "a", "B", "ab", "b"] {
        set.insert(name);
    }
    assert!(!set.is_empty());
    assert_eq!(set.to_vec(), vec!["B", "a", "ab", "b", "c"]);
    assert!(set.contains("ab"));
    assert!(!set.contains("d"));
}

#[test]
fn extend_joins_two_sets() {
    let mut left = FeatureSet::new();
    left.insert("x");
    left.insert("m");
    let mut right = FeatureSet::new();
    right.insert("a");
    right.insert("m");
    right.insert("z");
    left.extend(&right);
    assert_eq!(left.to_vec(), vec!["a", "m", "x", "z"]);
    assert_eq!(right.to_vec(), vec!["a", "m", "z"]);
    let copy = left.duplicate();
    assert_eq!(copy.to_vec(), left.to_vec());
}

#[test]
fn insertion_order_does_not_show() {
    let mut one = FeatureSet::new();
    let mut two = FeatureSet::new();
    for name in ["Win32_UI", "Win32_Foundation", "Win32_Graphics_Gdi"] {
        one.insert(name);
    }
    for name in ["Win32_Graphics_Gdi", "Win32_UI", "Win32_Foundation", "Win32_UI"] {
        two.insert(name);
    }
    assert_eq!(one.to_vec(), two.to_vec());
    assert_eq!(one.to_vec(), vec!["Win32_Foundation", "Win32_Graphics_Gdi", "Win32_UI"]);
}

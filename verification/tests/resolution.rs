use windows_features::catalog::{Catalog, Entry, NamespaceGroup};
use windows_features::diagnostics::{Diagnostic, Severity};
use windows_features::index::build_feature_mappings;
use windows_features::resolve::{
    attempt_fix_import, get_required_features, resolve, resolve_all, resolve_line,
};

fn entry(name: &str, features: &[usize]) -> Entry {
    Entry { name: name.to_string(), features: Some(features.to_vec()) }
}

fn group(key: &str, entries: Vec<Entry>) -> NamespaceGroup {
    NamespaceGroup { key: key.to_string(), entries }
}

fn strings(items: &[&str]) -> Vec<String> {
    items.iter().map(|s| s.to_string()).collect()
}

fn sample() -> Catalog {
    Catalog {
        namespace_table: strings(&[
            "Windows.Win32.Devices.Display",
            "Windows.Win32.UI.WindowsAndMessaging",
            "Windows.Real.Namespace",
            "Windows.Win32.UI",
        ]),
        feature_table: strings(&[
            "Win32_Devices_Display",
            "Win32_UI_WindowsAndMessaging",
            "X",
            "Win32_Foundation",
            "Win32_UI",
        ]),
        namespace_entries: vec![
            group("0", vec![entry("DisplayConfigGetDeviceInfo", &[0])]),
            group(
                "1",
                vec![
                    entry("CreateWindowExW", &[1]),
                    entry("DefWindowProcW", &[1]),
                    entry("MSG", &[1, 1]),
                ],
            ),
            group("2", vec![entry("Foo", &[2])]),
            group("3", vec![entry("WindowsAndMessagingExtra", &[4])]),
        ],
    }
}

#[test]
fn exact_match_gives_the_feature_of_the_item() {
    let (index, warnings) = build_feature_mappings(&sample());
    assert!(warnings.is_empty());
    let (found, report) =
        resolve_line(&index, "windows::Win32::Devices::Display::DisplayConfigGetDeviceInfo;");
    assert_eq!(found.to_vec(), strings(&["Win32_Devices_Display"]));
    assert_eq!(report, None);
}

#[test]
fn wildcard_gives_the_features_of_the_namespace() {
    let (index, _) = build_feature_mappings(&sample());
    let (found, report) = resolve_line(&index, "windows::Win32::UI::WindowsAndMessaging::*;");
    assert_eq!(found.to_vec(), strings(&["Win32_UI_WindowsAndMessaging"]));
    assert_eq!(report, None);
}

#[test]
fn wildcard_stops_at_the_namespace_boundary() {
    let (index, _) = build_feature_mappings(&sample());
    let found = index.by_namespace_prefix("Windows.Win32.UI.WindowsAndMess");
    assert!(found.is_empty());
    let found = index.by_namespace_prefix("Windows.Win32.UI");
    assert_eq!(found.to_vec(), strings(&["Win32_UI", "Win32_UI_WindowsAndMessaging"]));
}

#[test]
fn wildcard_over_an_unknown_namespace_is_reported() {
    let (index, _) = build_feature_mappings(&sample());
    let (found, report) = resolve_line(&index, "windows::Win32::Nothing::*;");
    assert!(found.is_empty());
    assert_eq!(
        report,
        Some(Diagnostic::NamespaceNotFound { namespace: "Windows.Win32.Nothing".to_string() })
    );
}

#[test]
fn item_under_a_wrong_namespace_is_corrected() {
    let (index, _) = build_feature_mappings(&sample());
    let (found, report) = resolve_line(&index, "windows::Wrong::Namespace::Foo;");
    assert_eq!(found.to_vec(), strings(&["X"]));
    assert_eq!(
        report,
        Some(Diagnostic::Corrected {
            original: "Windows.Wrong.Namespace.Foo".to_string(),
            corrected: "Windows.Real.Namespace.Foo".to_string(),
        })
    );
}

#[test]
fn fallback_ignores_the_case_of_letters() {
    let (index, _) = build_feature_mappings(&sample());
    let hit = attempt_fix_import(&index, "Windows.Wrong.fOO");
    let (key, found) = hit.unwrap();
    assert_eq!(key, "Windows.Real.Namespace.Foo");
    assert_eq!(found.to_vec(), strings(&["X"]));
    assert!(index.by_item_name("fOO", false).is_none());
    assert!(index.by_item_name("fOO", true).is_some());
    assert!(index.by_item_name("Foo", false).is_some());
}

#[test]
fn fallback_takes_the_first_key_in_lexicographic_order() {
    let catalog = Catalog {
        namespace_table: strings(&["Windows.Zeta", "Windows.Alpha", "Windows.Mid"]),
        feature_table: strings(&["Z", "A", "M"]),
        namespace_entries: vec![
            group("0", vec![entry("Thing", &[0])]),
            group("1", vec![entry("Thing", &[1])]),
            group("2", vec![entry("thing", &[2])]),
        ],
    };
    let (index, _) = build_feature_mappings(&catalog);
    let (key, found) = index.by_item_name("Thing", true).unwrap();
    assert_eq!(key, "Windows.Alpha.Thing");
    assert_eq!(found.to_vec(), strings(&["A"]));
    let (key, found) = index.by_item_name("thing", false).unwrap();
    assert_eq!(key, "Windows.Mid.thing");
    assert_eq!(found.to_vec(), strings(&["M"]));
    let (found, report) = resolve(&index, "Windows.Other", &Some("Thing".to_string()));
    assert_eq!(found.to_vec(), strings(&["A"]));
    assert_eq!(
        report,
        Some(Diagnostic::Corrected {
            original: "Windows.Other.Thing".to_string(),
            corrected: "Windows.Alpha.Thing".to_string(),
        })
    );
}

#[test]
fn unknown_item_brings_nothing_and_the_rest_goes_on() {
    let (index, _) = build_feature_mappings(&sample());
    let (found, report) = resolve_line(&index, "windows::Win32::Missing::NoSuchThing;");
    assert!(found.is_empty());
    assert_eq!(
        report,
        Some(Diagnostic::ItemNotFound { key: "Windows.Win32.Missing.NoSuchThing".to_string() })
    );
    let lines = strings(&[
        "windows::Win32::Missing::NoSuchThing;",
        "windows::Win32::Devices::Display::DisplayConfigGetDeviceInfo;",
    ]);
    let result = get_required_features(&lines, &index);
    assert_eq!(result.features.to_vec(), strings(&["Win32_Devices_Display"]));
    assert_eq!(
        result.diagnostics,
        vec![Diagnostic::ItemNotFound { key: "Windows.Win32.Missing.NoSuchThing".to_string() }]
    );
}

#[test]
fn short_line_is_skipped() {
    let (index, _) = build_feature_mappings(&sample());
    let lines = strings(&["windows::Foo;", "windows::Real::Namespace::Foo;", "windows"]);
    let result = get_required_features(&lines, &index);
    assert_eq!(result.features.to_vec(), strings(&["X"]));
    assert_eq!(
        result.diagnostics,
        vec![
            Diagnostic::UnparseableImport { line: "windows::Foo;".to_string() },
            Diagnostic::UnparseableImport { line: "windows".to_string() },
        ]
    );
}

#[test]
fn resolving_a_line_twice_adds_nothing() {
    let (index, _) = build_feature_mappings(&sample());
    let once = strings(&["windows::Win32::UI::WindowsAndMessaging::MSG;"]);
    let twice = strings(&[
        "windows::Win32::UI::WindowsAndMessaging::MSG;",
        "windows::Win32::UI::WindowsAndMessaging::MSG;",
    ]);
    let a = get_required_features(&once, &index).features.to_vec();
    let b = get_required_features(&twice, &index).features.to_vec();
    assert_eq!(a, strings(&["Win32_UI_WindowsAndMessaging"]));
    assert_eq!(a, b);
}

#[test]
fn order_of_the_lines_makes_no_difference() {
    let (index, _) = build_feature_mappings(&sample());
    let forward = strings(&[
        "windows::Win32::UI::WindowsAndMessaging::*;",
        "windows::Real::Namespace::Foo;",
        "windows::Win32::Devices::Display::DisplayConfigGetDeviceInfo;",
    ]);
    let backward = strings(&[
        "windows::Win32::Devices::Display::DisplayConfigGetDeviceInfo;",
        "windows::Real::Namespace::Foo;",
        "windows::Win32::UI::WindowsAndMessaging::*;",
    ]);
    let a = get_required_features(&forward, &index).features.to_vec();
    let b = get_required_features(&backward, &index).features.to_vec();
    assert_eq!(a, strings(&["Win32_Devices_Display", "Win32_UI_WindowsAndMessaging", "X"]));
    assert_eq!(a, b);
}

#[test]
fn catalog_entries_that_name_nothing_are_passed_over() {
    let catalog = Catalog {
        namespace_table: strings(&["Windows.A", "Windows.B"]),
        feature_table: strings(&["F0", "F1"]),
        namespace_entries: vec![
            group("x1", vec![entry("Lost", &[0])]),
            group("7", vec![entry("Far", &[0])]),
            group(
                "1",
                vec![
                    entry("Good", &[1, 9, 0]),
                    entry("Bare", &[]),
                    Entry { name: "Void".to_string(), features: None },
                    entry("Off", &[5]),
                ],
            ),
            group("+0", vec![entry("Plus", &[1])]),
        ],
    };
    let (index, warnings) = build_feature_mappings(&catalog);
    assert_eq!(
        warnings,
        vec![
            Diagnostic::InvalidNamespaceKey { key: "x1".to_string() },
            Diagnostic::NamespaceOutOfRange { index: 7 },
            Diagnostic::FeatureOutOfRange { index: 9 },
            Diagnostic::FeatureOutOfRange { index: 5 },
        ]
    );
    assert_eq!(index.exact("Windows.B.Good").unwrap().to_vec(), strings(&["F0", "F1"]));
    assert!(index.exact("Windows.B.Bare").is_none());
    assert!(index.exact("Windows.B.Void").is_none());
    assert!(index.exact("Windows.B.Off").is_none());
    assert!(index.exact("Windows.A.Lost").is_none());
    assert_eq!(index.exact("Windows.A.Plus").unwrap().to_vec(), strings(&["F1"]));
    let (found, report) = resolve(&index, "Windows.B", &Some("Bare".to_string()));
    assert!(found.is_empty());
    assert_eq!(report, Some(Diagnostic::ItemNotFound { key: "Windows.B.Bare".to_string() }));
}

#[test]
fn a_key_listed_twice_has_the_features_of_both() {
    let catalog = Catalog {
        namespace_table: strings(&["Windows.A"]),
        feature_table: strings(&["F0", "F1"]),
        namespace_entries: vec![
            group("0", vec![entry("Item", &[1])]),
            group("00", vec![entry("Item", &[0])]),
        ],
    };
    let (index, warnings) = build_feature_mappings(&catalog);
    assert!(warnings.is_empty());
    assert_eq!(index.exact("Windows.A.Item").unwrap().to_vec(), strings(&["F0", "F1"]));
    let (key, found) = index.by_item_name("item", true).unwrap();
    assert_eq!(key, "Windows.A.Item");
    assert_eq!(found.to_vec(), strings(&["F0", "F1"]));
}

#[test]
fn resolve_all_reports_on_the_catalog_first() {
    let mut catalog = sample();
    catalog.namespace_entries.insert(0, group("99", vec![entry("Gone", &[0])]));
    let lines = strings(&["windows::Wrong::Foo;", "windows::Win32::UI::WindowsAndMessaging::MSG"]);
    let result = resolve_all(&lines, &catalog);
    assert_eq!(result.features.to_vec(), strings(&["Win32_UI_WindowsAndMessaging", "X"]));
    assert_eq!(
        result.diagnostics,
        vec![
            Diagnostic::NamespaceOutOfRange { index: 99 },
            Diagnostic::Corrected {
                original: "Windows.Wrong.Foo".to_string(),
                corrected: "Windows.Real.Namespace.Foo".to_string(),
            },
        ]
    );
}

#[test]
fn diagnostics_are_put_in_words() {
    let text = |d: Diagnostic| {
        assert_eq!(d.severity(), Severity::Warning);
        d.message()
    };
    assert_eq!(
        text(Diagnostic::InvalidNamespaceKey { key: "x1".to_string() }),
        "Invalid namespace index: x1"
    );
    assert_eq!(
        text(Diagnostic::NamespaceOutOfRange { index: 70 }),
        "Index 70 out of range for namespace_map"
    );
    assert_eq!(
        text(Diagnostic::FeatureOutOfRange { index: 9 }),
        "Feature index 9 out of bounds for feature_map"
    );
    assert_eq!(
        text(Diagnostic::UnparseableImport { line: "windows::Foo;".to_string() }),
        "Could not determine namespace and item for import: windows::Foo;"
    );
    assert_eq!(
        text(Diagnostic::Corrected {
            original: "Windows.Wrong.Namespace.Foo".to_string(),
            corrected: "Windows.Real.Namespace.Foo".to_string(),
        }),
        "Corrected namespace for Windows.Wrong.Namespace.Foo to match existing item: Windows.Real.Namespace.Foo"
    );
    assert_eq!(
        text(Diagnostic::ItemNotFound { key: "Windows.A.B".to_string() }),
        "No features found for item: Windows.A.B"
    );
    assert_eq!(
        text(Diagnostic::NamespaceNotFound { namespace: "Windows.A".to_string() }),
        "No features found for namespace: Windows.A"
    );
}

#[test]
fn white_space_after_the_terminator_does_not_hide_the_item() {
    let (index, _) = build_feature_mappings(&sample());
    let (found, report) =
        resolve_line(&index, "use windows::Win32::Devices::Display::DisplayConfigGetDeviceInfo; ");
    assert_eq!(found.to_vec(), strings(&["Win32_Devices_Display"]));
    assert_eq!(report, None);
}

use route_rs::layout::{
    check_layout, file_extension, find_geopackage, join_path, route_layout, select_geopackage,
    LayoutError,
};

#[test]
fn joining_adds_one_separator() {
    assert_eq!(join_path("run", "config"), "run/config");
    assert_eq!(join_path("run/", "config"), "run/config");
    assert_eq!(join_path("", "config"), "config");
}

#[test]
fn run_directories() {
    let l = route_layout("test_route_dir");
    assert_eq!(l.root_dir, "test_route_dir");
    assert_eq!(l.csv_dir, "test_route_dir/outputs/ngen");
    assert_eq!(l.config_dir, "test_route_dir/config");
    assert_eq!(l.output_dir, "test_route_dir/outputs/troute");
}

#[test]
fn layout_errors() {
    let l = route_layout("r");
    assert!(check_layout(&l, true, true, true, true).is_ok());
    match check_layout(&l, false, true, true, true) {
        Err(LayoutError::RootNotADirectory(p)) => assert_eq!(p, "r"),
        _ => panic!("expected a missing root"),
    }
    match check_layout(&l, true, false, true, false) {
        Err(LayoutError::MissingDirectories(v)) => {
            assert_eq!(v, vec!["r/outputs/ngen".to_string(), "r/outputs/troute".to_string()])
        }
        _ => panic!("expected missing directories"),
    }
}

#[test]
fn extensions_follow_the_last_dot() {
    assert_eq!(file_extension("net.gpkg"), Some("gpkg".to_string()));
    assert_eq!(file_extension("a.b.gpkg"), Some("gpkg".to_string()));
    assert_eq!(file_extension("README"), None);
    assert_eq!(file_extension(".gpkg"), None);
    assert_eq!(file_extension("trailing."), Some(String::new()));
    assert_eq!(file_extension(".."), None);
    assert_eq!(file_extension("réseau.gpkg"), Some("gpkg".to_string()));
}

#[test]
fn first_geopackage_is_chosen() {
    let names: Vec<String> = vec!["notes.txt", "cat.gpkg.bak", "a.gpkg", "b.gpkg"]
        .into_iter()
        .map(String::from)
        .collect();
    assert_eq!(find_geopackage(&names), Some(2));
    let none: Vec<String> = vec!["x.csv".to_string(), ".gpkg".to_string()];
    assert_eq!(find_geopackage(&none), None);
    assert!(matches!(select_geopackage(&none), Err(LayoutError::NoGeopackage)));
    assert_eq!(select_geopackage(&names).ok(), Some(2));
}

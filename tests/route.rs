use exercises::route_structure::Route;

#[test]
fn route_start_contains_only_its_position() {
    let route = Route::start_rc('A');
    assert!(route.contains(&'A'));
    assert!(!route.contains(&'B'));
    let numbered = Route::start_rc(7u32);
    assert!(numbered.contains(&7));
    assert!(!numbered.contains(&8));
}

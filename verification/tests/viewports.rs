use mux_server::viewports::Viewports;

#[test]
fn a_pane_takes_the_smallest_size_of_its_clients() {
    let mut viewports = Viewports::new();
    assert_eq!(viewports.fit(), None);
    assert_eq!(viewports.set_client_viewport("a".to_string(), 120, 30), (120, 30));
    assert_eq!(viewports.set_client_viewport("b".to_string(), 80, 50), (80, 30));
    assert_eq!(viewports.fit(), Some((80, 30)));
}

#[test]
fn a_client_has_one_say() {
    let mut viewports = Viewports::new();
    viewports.set_client_viewport("a".to_string(), 40, 10);
    assert_eq!(viewports.set_client_viewport("a".to_string(), 90, 20), (90, 20));
    assert_eq!(viewports.reported.len(), 1);
}

#[test]
fn a_pane_grows_back_where_a_client_goes() {
    let mut viewports = Viewports::new();
    viewports.set_client_viewport("a".to_string(), 120, 30);
    viewports.set_client_viewport("b".to_string(), 80, 20);
    assert_eq!(viewports.remove_client_viewport("c"), Some((80, 20)));
    assert_eq!(viewports.remove_client_viewport("b"), Some((120, 30)));
    assert_eq!(viewports.remove_client_viewport("a"), None);
    assert!(viewports.reported.is_empty());
}

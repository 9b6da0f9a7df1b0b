use st_click::session::Session;

#[test]
fn session_holds_the_selected_sequence() {
    let s = Session { sequence_name: "quarters".to_string() };
    let t = s.clone();
    assert_eq!(t.sequence_name, "quarters");
}

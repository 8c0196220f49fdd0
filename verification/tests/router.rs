use protomatrix::protomatrix::{JumperStateProvider, ProtoSide, ProtomatrixTarget};
use protomatrix::router::{
    autoroute, column_key_to_string, AutorouteResult, ColumnKey, Connection, JumperState,
};
use protomatrix::strmap::StrMap;

fn pad(side: ProtoSide, col: i32, row: i32) -> ProtomatrixTarget {
    ProtomatrixTarget::Pad { side, col, row }
}

fn key(side: ProtoSide, col: i32) -> ColumnKey {
    ColumnKey { side, col }
}

fn routed(m: i32, conns: &[Connection], pins: Option<&StrMap<i32>>) -> JumperState {
    match autoroute(m, conns, pins) {
        AutorouteResult::Routed(js) => js,
        AutorouteResult::Failed(e) => panic!("routing failed: {}", e),
    }
}

use ProtoSide::{Lower, Upper};

#[test]
fn no_connections_close_nothing() {
    let js = routed(4, &[], None);
    assert_eq!(js.closed_count(), 0);
    assert!(js.net_canonical_keys().is_empty());
    assert!(!js.is_closed(Lower, 0, 0));
}

#[test]
fn connections_to_non_pads_are_ignored() {
    let conns = [Connection::new(pad(Lower, 1, 0), ProtomatrixTarget::MatrixRow { side: Lower, row: 2 })];
    let js = routed(4, &conns, None);
    assert_eq!(js.closed_count(), 0);
}

#[test]
fn one_net_across_sides_shares_a_row() {
    let conns = [
        Connection::new(pad(Lower, 0, 0), pad(Lower, 2, 5)),
        Connection::new(pad(Upper, 1, 3), pad(Lower, 2, 1)),
    ];
    let js = routed(4, &conns, None);
    assert_eq!(js.net_canonical_keys(), &vec![key(Lower, 0)]);
    assert_eq!(js.closed_count(), 3);
    assert_eq!(js.net_index(Lower, 0, 0), Some(0));
    assert_eq!(js.net_index(Lower, 2, 0), Some(0));
    assert_eq!(js.net_index(Upper, 1, 0), Some(0));
    assert_eq!(js.net_index(Upper, 1, 1), None);
    assert_eq!(js.columns_for_net(0), vec![key(Lower, 0), key(Lower, 2), key(Upper, 1)]);
    assert_eq!(js.net_for_row(0), Some(0));
    assert_eq!(js.net_for_row(1), None);
    assert_eq!(js.net_for_column(Upper, 1, 4), Some(0));
    assert_eq!(js.net_for_column(Upper, 2, 4), None);
    assert_eq!(js.net_for_column(Upper, 1, 0), None);
}

#[test]
fn nets_are_ordered_by_smallest_column() {
    let conns = [
        Connection::new(pad(Lower, 3, 0), pad(Lower, 4, 0)),
        Connection::new(pad(Lower, 1, 0), pad(Upper, 0, 0)),
    ];
    let js = routed(4, &conns, None);
    assert_eq!(js.net_canonical_keys(), &vec![key(Lower, 1), key(Lower, 3)]);
    assert_eq!(js.net_index(Lower, 1, 0), Some(0));
    assert_eq!(js.net_index(Upper, 0, 0), Some(0));
    assert_eq!(js.net_index(Lower, 3, 1), Some(1));
    assert_eq!(js.net_index(Lower, 4, 1), Some(1));
    assert_eq!(js.closed_count(), 4);
}

#[test]
fn pinned_net_takes_its_row() {
    let conns = [
        Connection::new(pad(Lower, 3, 0), pad(Lower, 4, 0)),
        Connection::new(pad(Lower, 1, 0), pad(Upper, 0, 0)),
    ];
    let mut pins: StrMap<i32> = StrMap::new();
    pins.insert("L3".to_string(), 2);
    let js = routed(4, &conns, Some(&pins));
    assert_eq!(js.net_for_row(2), Some(1));
    assert_eq!(js.net_for_row(0), Some(0));
    assert!(js.is_closed(Lower, 3, 2));
    assert!(!js.is_closed(Lower, 3, 1));
}

#[test]
fn conflicting_and_out_of_range_pins() {
    let conns = [
        Connection::new(pad(Lower, 3, 0), pad(Lower, 4, 0)),
        Connection::new(pad(Lower, 1, 0), pad(Upper, 0, 0)),
        Connection::new(pad(Upper, 5, 0), pad(Upper, 6, 0)),
    ];
    let mut pins: StrMap<i32> = StrMap::new();
    pins.insert("L1".to_string(), 1);
    pins.insert("L3".to_string(), 1);
    pins.insert("U5".to_string(), 9);
    let js = routed(4, &conns, Some(&pins));
    // L1 keeps row 1; L3 asked for the taken row 1 and U5 for a row out of range, so both take the
    // free rows 0 and 2 in order.
    assert_eq!(js.net_for_row(1), Some(0));
    assert_eq!(js.net_for_row(0), Some(1));
    assert_eq!(js.net_for_row(2), Some(2));
    assert_eq!(js.net_for_row(3), None);
}

#[test]
fn too_many_nets_is_an_error() {
    let conns = [
        Connection::new(pad(Lower, 0, 0), pad(Lower, 1, 0)),
        Connection::new(pad(Lower, 2, 0), pad(Lower, 3, 0)),
        Connection::new(pad(Lower, 4, 0), pad(Lower, 5, 0)),
    ];
    match autoroute(2, &conns, None) {
        AutorouteResult::Failed(e) => assert_eq!(e, "Too many nets (3), max 2 rows available"),
        AutorouteResult::Routed(_) => panic!("expected an error"),
    }
}

#[test]
fn provider_trait_answers_like_the_state() {
    let conns = [Connection::new(pad(Lower, 0, 0), pad(Upper, 0, 0))];
    let js = routed(1, &conns, None);
    let p: &dyn JumperStateProvider = &js;
    assert!(p.is_closed(Upper, 0, 0));
    assert_eq!(p.net_index(Lower, 0, 0), Some(0));
    assert_eq!(p.net_index(Lower, 1, 0), None);
}

#[test]
fn column_key_text() {
    assert_eq!(column_key_to_string(&key(Lower, 3)), "L3");
    assert_eq!(column_key_to_string(&key(Upper, 5)), "U5");
    assert_eq!(column_key_to_string(&key(Upper, -12)), "U-12");
}

#[test]
fn from_pad_reads_pad_columns_only() {
    assert_eq!(ColumnKey::from_pad(&pad(Upper, 7, 2)), Some(key(Upper, 7)));
    assert_eq!(
        ColumnKey::from_pad(&ProtomatrixTarget::SolderJumper { side: Upper, col: 7, row: 2 }),
        None
    );
}

#[test]
fn default_state_is_empty() {
    let js = JumperState::default();
    assert_eq!(js.closed_count(), 0);
    assert_eq!(js.net_for_row(0), None);
}

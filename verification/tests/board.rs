use protomatrix::board::{
    apply_column_group_move, build_column_group_remap, column_from_target,
    column_key_from_string, column_key_to_x_label, column_remap_to_side_col, disconnect_column,
    add_connection_and_route, columns_with_net, drop_net_on_row, group_spans_fit, set_or_clear_text,
    migrate_disconnected_column_metadata, migrate_net_metadata_after_autoroute,
    net_index_for_target, protomatrix_target_label, remap_pad_endpoint, row_to_y_label, run_autoroute,
    validate_column_group_move,
};
use protomatrix::protomatrix::{ProtoSide, ProtomatrixTarget};
use protomatrix::router::{autoroute, column_key_to_string, AutorouteResult, ColumnKey, Connection, JumperState};
use protomatrix::strmap::StrMap;

use ProtoSide::{Lower, Upper};

fn pad(side: ProtoSide, col: i32, row: i32) -> ProtomatrixTarget {
    ProtomatrixTarget::Pad { side, col, row }
}

fn key(side: ProtoSide, col: i32) -> ColumnKey {
    ColumnKey { side, col }
}

fn map_of<V: Clone>(entries: &[(&str, V)]) -> StrMap<V> {
    let mut m = StrMap::new();
    for (k, v) in entries {
        m.insert(k.to_string(), v.clone());
    }
    m
}

fn routed(m: i32, conns: &[Connection]) -> JumperState {
    match autoroute(m, conns, None) {
        AutorouteResult::Routed(js) => js,
        AutorouteResult::Failed(e) => panic!("routing failed: {}", e),
    }
}

#[test]
fn labels() {
    assert_eq!(column_key_to_x_label(&key(Upper, 8)), "XA9");
    assert_eq!(column_key_to_x_label(&key(Lower, 0)), "XB1");
    assert_eq!(row_to_y_label(0), "Y1");
    assert_eq!(row_to_y_label(11), "Y12");
    assert_eq!(protomatrix_target_label(&pad(Lower, 2, 1)), "pad XB3 (Y2)");
    assert_eq!(
        protomatrix_target_label(&ProtomatrixTarget::MatrixRow { side: Upper, row: 0 }),
        "matrix Y1 [upper]"
    );
    assert_eq!(
        protomatrix_target_label(&ProtomatrixTarget::SolderJumper { side: Lower, col: 0, row: 3 }),
        "jumper XB1 Y4 [lower]"
    );
}

#[test]
fn column_keys_from_text() {
    assert_eq!(column_key_from_string("L3"), Some(key(Lower, 3)));
    assert_eq!(column_key_from_string("U-2"), Some(key(Upper, -2)));
    assert_eq!(column_key_from_string("L+5"), Some(key(Lower, 5)));
    assert_eq!(column_key_from_string("X3"), None);
    assert_eq!(column_key_from_string("L"), None);
    assert_eq!(column_key_from_string("L 5"), None);
    assert_eq!(column_key_from_string(""), None);
    assert_eq!(column_key_from_string("L99999999999"), None);
}

#[test]
fn column_key_text_round_trip() {
    for k in [key(Lower, 0), key(Upper, 17), key(Lower, -3), key(Upper, i32::MIN), key(Lower, i32::MAX)] {
        assert_eq!(column_key_from_string(&column_key_to_string(&k)), Some(k));
    }
}

#[test]
fn columns_of_targets() {
    assert_eq!(column_from_target(&pad(Upper, 4, 1)), Some(key(Upper, 4)));
    assert_eq!(
        column_from_target(&ProtomatrixTarget::SolderJumper { side: Lower, col: 2, row: 0 }),
        Some(key(Lower, 2))
    );
    assert_eq!(column_from_target(&ProtomatrixTarget::MatrixRow { side: Lower, row: 0 }), None);
}

#[test]
fn remap_keeps_spacing() {
    let sel = vec![key(Lower, 2), key(Lower, 4), key(Lower, 2)];
    let m = build_column_group_remap(&sel, 5, 10, false, false).unwrap();
    assert_eq!(m.len(), 2);
    assert_eq!(m.get(Lower, 2), Some(key(Lower, 5)));
    assert_eq!(m.get(Lower, 4), Some(key(Lower, 7)));
    assert_eq!(m.get(Lower, 3), None);
    assert!(m.has_dest(Lower, 7));
    assert!(!m.has_dest(Lower, 6));
    let pairs = column_remap_to_side_col(&m);
    assert_eq!(pairs.len(), 2);
    assert!(pairs.contains(&((Lower, 2), (Lower, 5))));
}

#[test]
fn remap_rotate_and_flip() {
    let sel = vec![key(Lower, 2), key(Lower, 4)];
    let r = build_column_group_remap(&sel, 5, 10, true, false).unwrap();
    assert_eq!(r.get(Lower, 2), Some(key(Upper, 7)));
    assert_eq!(r.get(Lower, 4), Some(key(Upper, 5)));
    let f = build_column_group_remap(&sel, 5, 10, false, true).unwrap();
    assert_eq!(f.get(Lower, 2), Some(key(Upper, 5)));
    assert_eq!(f.get(Lower, 4), Some(key(Upper, 7)));
    let rf = build_column_group_remap(&sel, 5, 10, true, true).unwrap();
    assert_eq!(rf.get(Lower, 2), Some(key(Lower, 7)));
    assert_eq!(rf.get(Lower, 4), Some(key(Lower, 5)));
}

#[test]
fn remap_needs_room() {
    let sel = vec![key(Lower, 2), key(Lower, 4), key(Upper, 0)];
    assert!(build_column_group_remap(&sel, 7, 10, false, false).is_some());
    assert!(build_column_group_remap(&sel, 8, 10, false, false).is_none());
    assert!(build_column_group_remap(&sel, 9, 10, false, false).is_none());
    let last_two = vec![key(Lower, 0), key(Lower, 1)];
    assert!(build_column_group_remap(&last_two, 62, 63, false, false).is_none());
    let m = build_column_group_remap(&last_two, 61, 63, false, false).unwrap();
    assert_eq!(m.get(Lower, 1), Some(key(Lower, 62)));
    assert!(build_column_group_remap(&sel, -1, 10, false, false).is_none());
    assert!(build_column_group_remap(&vec![], 0, 10, false, false).is_none());
}

#[test]
fn remap_endpoints() {
    let sel = vec![key(Lower, 2)];
    let m = build_column_group_remap(&sel, 6, 10, false, false).unwrap();
    assert_eq!(remap_pad_endpoint(&pad(Lower, 2, 3), &m), pad(Lower, 6, 3));
    assert_eq!(
        remap_pad_endpoint(&ProtomatrixTarget::SolderJumper { side: Lower, col: 2, row: 1 }, &m),
        ProtomatrixTarget::SolderJumper { side: Lower, col: 6, row: 1 }
    );
    assert_eq!(remap_pad_endpoint(&pad(Upper, 2, 3), &m), pad(Upper, 2, 3));
    let row = ProtomatrixTarget::MatrixRow { side: Lower, row: 2 };
    assert_eq!(remap_pad_endpoint(&row, &m), row);
}

#[test]
fn move_onto_another_net_is_refused() {
    let conns = vec![
        Connection::new(pad(Lower, 2, 0), pad(Lower, 3, 0)),
        Connection::new(pad(Lower, 6, 0), pad(Lower, 7, 0)),
    ];
    let sel = vec![key(Lower, 2)];
    let m = build_column_group_remap(&sel, 6, 10, false, false).unwrap();
    assert_eq!(
        validate_column_group_move(&conns, &m),
        Err("Target overlaps another net (no merge). Pick a different column.".to_string())
    );
    let m2 = build_column_group_remap(&sel, 5, 10, false, false).unwrap();
    assert_eq!(validate_column_group_move(&conns, &m2), Ok(()));
}

#[test]
fn apply_move_carries_metadata() {
    let mut conns = vec![Connection::new(pad(Lower, 2, 0), pad(Lower, 3, 1))];
    let mut names = map_of(&[("L2", "".to_string()), ("L6", "GND".to_string())]);
    let mut colors = map_of(&[("L2", [1u8, 2, 3, 4])]);
    let mut pins = map_of(&[("L2", 1i32), ("U9", 3)]);
    let mut notes = map_of(&[("L2", "a".to_string()), ("L3", "".to_string())]);
    let sel = vec![key(Lower, 2)];
    let r = apply_column_group_move(
        &mut conns, &mut names, &mut colors, &mut pins, &mut notes, &sel, 6, 10, false, false,
    );
    assert_eq!(r, Ok(()));
    assert_eq!(conns, vec![Connection::new(pad(Lower, 6, 0), pad(Lower, 3, 1))]);
    assert_eq!(names.len(), 1);
    assert_eq!(names.get("L6"), Some(&"GND".to_string()));
    assert_eq!(colors.get("L6"), Some(&[1u8, 2, 3, 4]));
    assert!(!colors.contains_key("L2"));
    assert_eq!(pins.get("L6"), Some(&1));
    assert_eq!(pins.get("U9"), Some(&3));
    assert_eq!(notes.get("L6"), Some(&"a".to_string()));
    assert_eq!(notes.get("L3"), Some(&"".to_string()));
}

#[test]
fn apply_move_without_room_changes_nothing() {
    let mut conns = vec![Connection::new(pad(Lower, 2, 0), pad(Lower, 3, 1))];
    let mut names = map_of(&[("L2", "VCC".to_string())]);
    let mut colors: StrMap<[u8; 4]> = StrMap::new();
    let mut pins: StrMap<i32> = StrMap::new();
    let mut notes: StrMap<String> = StrMap::new();
    let sel = vec![key(Lower, 2), key(Lower, 3)];
    let r = apply_column_group_move(
        &mut conns, &mut names, &mut colors, &mut pins, &mut notes, &sel, 10, 10, false, false,
    );
    assert_eq!(r, Err("Not enough room for that many columns in that direction.".to_string()));
    assert_eq!(conns, vec![Connection::new(pad(Lower, 2, 0), pad(Lower, 3, 1))]);
    assert_eq!(names.get("L2"), Some(&"VCC".to_string()));
}

#[test]
fn disconnect_keeps_the_rest_connected() {
    let mut conns = vec![
        Connection::new(pad(Lower, 0, 0), pad(Lower, 1, 2)),
        Connection::new(pad(Lower, 2, 1), pad(Lower, 0, 3)),
        Connection::new(pad(Lower, 1, 0), pad(Lower, 3, 0)),
        Connection::new(pad(Lower, 0, 4), pad(Lower, 1, 5)),
    ];
    disconnect_column(&mut conns, key(Lower, 0));
    assert_eq!(
        conns,
        vec![
            Connection::new(pad(Lower, 1, 0), pad(Lower, 3, 0)),
            Connection::new(pad(Lower, 1, 2), pad(Lower, 2, 1)),
        ]
    );
}

#[test]
fn disconnect_metadata_goes_to_next_smallest_column() {
    let conns = [
        Connection::new(pad(Lower, 0, 0), pad(Lower, 1, 0)),
        Connection::new(pad(Lower, 1, 0), pad(Lower, 2, 0)),
    ];
    let js = routed(4, &conns);
    let mut names = map_of(&[("L0", "SIG".to_string())]);
    let mut colors = map_of(&[("L0", [9u8, 9, 9, 9]), ("L1", [1u8, 1, 1, 1])]);
    let mut pins = map_of(&[("L0", 7i32)]);
    migrate_disconnected_column_metadata(key(Lower, 0), &js, 4, &mut names, &mut colors, &mut pins);
    assert_eq!(names.get("L1"), Some(&"SIG".to_string()));
    assert!(!names.contains_key("L0"));
    assert_eq!(colors.get("L1"), Some(&[1u8, 1, 1, 1]));
    assert_eq!(colors.get("L0"), Some(&[9u8, 9, 9, 9]));
    assert_eq!(pins.get("L1"), Some(&3));
    let mut lone = map_of(&[("L5", "X".to_string())]);
    let mut c2: StrMap<[u8; 4]> = StrMap::new();
    let mut p2: StrMap<i32> = StrMap::new();
    migrate_disconnected_column_metadata(key(Lower, 5), &js, 4, &mut lone, &mut c2, &mut p2);
    assert_eq!(lone.get("L5"), Some(&"X".to_string()));
}

#[test]
fn metadata_follows_canonical_keys() {
    let conns = [
        Connection::new(pad(Lower, 1, 0), pad(Lower, 2, 0)),
        Connection::new(pad(Upper, 0, 0), pad(Upper, 3, 0)),
    ];
    let js = routed(4, &conns);
    let mut names = map_of(&[("0", "A".to_string()), ("L2", "B".to_string())]);
    let mut colors = map_of(&[("U3", [5u8, 5, 5, 5])]);
    let mut pins = map_of(&[("L2", 9i32), ("U3", 1), ("X", 0)]);
    let moved = migrate_net_metadata_after_autoroute(&mut names, &mut colors, &mut pins, &js, 4);
    assert!(moved);
    assert_eq!(names.len(), 2);
    assert_eq!(names.get("L1"), Some(&"A".to_string()));
    assert_eq!(names.get("L2"), Some(&"B".to_string()));
    assert_eq!(colors.get("U0"), Some(&[5u8, 5, 5, 5]));
    assert!(!colors.contains_key("U3"));
    assert_eq!(pins.len(), 2);
    assert_eq!(pins.get("L1"), Some(&3));
    assert_eq!(pins.get("U0"), Some(&1));
}

#[test]
fn out_of_range_and_orphan_pins_are_dropped() {
    let conns = [Connection::new(pad(Lower, 1, 0), pad(Lower, 2, 0))];
    let js = routed(4, &conns);
    let mut names: StrMap<String> = StrMap::new();
    let mut colors: StrMap<[u8; 4]> = StrMap::new();
    let mut pins = map_of(&[("L1", 7i32), ("U4", 1)]);
    let moved = migrate_net_metadata_after_autoroute(&mut names, &mut colors, &mut pins, &js, 4);
    assert!(!moved);
    assert_eq!(pins.len(), 0);
}

#[test]
fn net_of_targets() {
    let conns = [Connection::new(pad(Lower, 1, 0), pad(Upper, 2, 0))];
    let js = routed(4, &conns);
    assert_eq!(net_index_for_target(&pad(Upper, 2, 9), Some(&js), 4), Some(0));
    assert_eq!(
        net_index_for_target(&ProtomatrixTarget::SolderJumper { side: Lower, col: 1, row: 0 }, Some(&js), 4),
        Some(0)
    );
    assert_eq!(
        net_index_for_target(&ProtomatrixTarget::SolderJumper { side: Lower, col: 1, row: 1 }, Some(&js), 4),
        None
    );
    assert_eq!(
        net_index_for_target(&ProtomatrixTarget::MatrixRow { side: Upper, row: 0 }, Some(&js), 4),
        Some(0)
    );
    assert_eq!(net_index_for_target(&pad(Upper, 2, 9), None, 4), None);
}

#[test]
fn migrated_pin_routes_again() {
    let conns = [Connection::new(pad(Lower, 1, 0), pad(Lower, 2, 0))];
    let mut names: StrMap<String> = StrMap::new();
    let mut colors: StrMap<[u8; 4]> = StrMap::new();
    let mut pins = map_of(&[("L2", 3i32)]);
    let out = run_autoroute(4, &conns, &mut names, &mut colors, &mut pins, None);
    assert!(out.error.is_none());
    let js = out.jumper_state.unwrap();
    assert!(js.is_closed(Lower, 1, 3));
    assert!(js.is_closed(Lower, 2, 3));
    assert_eq!(pins.get("L1"), Some(&3));
    assert!(!pins.contains_key("L2"));
}

#[test]
fn failed_routing_keeps_previous_state() {
    let one = [Connection::new(pad(Lower, 0, 0), pad(Lower, 1, 0))];
    let mut names: StrMap<String> = StrMap::new();
    let mut colors: StrMap<[u8; 4]> = StrMap::new();
    let mut pins: StrMap<i32> = StrMap::new();
    let first = run_autoroute(1, &one, &mut names, &mut colors, &mut pins, None);
    let prev = first.jumper_state.unwrap();
    let two = [
        Connection::new(pad(Lower, 0, 0), pad(Lower, 1, 0)),
        Connection::new(pad(Lower, 2, 0), pad(Lower, 3, 0)),
    ];
    let out = run_autoroute(1, &two, &mut names, &mut colors, &mut pins, Some(prev));
    assert_eq!(out.error, Some("Too many nets (2), max 1 rows available".to_string()));
    let kept = out.jumper_state.unwrap();
    assert_eq!(kept.closed_count(), 2);
    assert!(kept.is_closed(Lower, 0, 0));
}

#[test]
fn group_spans_fit_limits() {
    assert!(group_spans_fit(&vec![key(Lower, 0), key(Lower, 5), key(Upper, 9)], 3));
    assert!(!group_spans_fit(&vec![key(Lower, 0), key(Lower, i32::MAX)], 1));
    assert!(group_spans_fit(&vec![key(Lower, 0), key(Lower, i32::MAX)], -1));
    assert!(!group_spans_fit(&vec![key(Lower, -1), key(Lower, i32::MAX)], -1));
    assert!(group_spans_fit(&vec![key(Lower, -1), key(Upper, i32::MAX)], 0));
}

#[test]
fn row_drop_swaps_nets() {
    let conns = [
        Connection::new(pad(Lower, 0, 0), pad(Lower, 1, 0)),
        Connection::new(pad(Lower, 2, 0), pad(Lower, 3, 0)),
    ];
    let js = routed(4, &conns);
    assert_eq!(js.net_for_row(0), Some(0));
    assert_eq!(js.net_for_row(1), Some(1));
    let mut pins = map_of(&[("L9", 1i32), ("U5", 2i32)]);
    drop_net_on_row(&mut pins, &js, 0, 0, 1);
    assert_eq!(pins.get("L0"), Some(&1));
    assert_eq!(pins.get("L2"), Some(&0));
    assert!(!pins.contains_key("L9"));
    assert_eq!(pins.get("U5"), Some(&2));
    assert_eq!(pins.len(), 3);
}

#[test]
fn row_drop_onto_empty_row() {
    let conns = [Connection::new(pad(Lower, 0, 0), pad(Lower, 1, 0))];
    let js = routed(4, &conns);
    let mut pins = map_of(&[("U7", 3i32)]);
    drop_net_on_row(&mut pins, &js, 0, 0, 3);
    assert_eq!(pins.get("L0"), Some(&3));
    assert_eq!(pins.len(), 1);
    let mut pins = map_of(&[("U7", 3i32)]);
    drop_net_on_row(&mut pins, &js, 5, 0, 3);
    assert_eq!(pins.get("U7"), Some(&3));
    assert_eq!(pins.len(), 1);
}

#[test]
fn disconnect_drops_connection_within_column() {
    let mut conns = vec![
        Connection::new(pad(Lower, 1, 0), pad(Lower, 1, 2)),
        Connection::new(pad(Lower, 1, 0), pad(Lower, 2, 0)),
    ];
    disconnect_column(&mut conns, key(Lower, 1));
    assert!(conns.is_empty());

    let mut conns = vec![
        Connection::new(pad(Lower, 1, 0), pad(Lower, 1, 2)),
        Connection::new(pad(Lower, 1, 0), pad(Lower, 2, 0)),
        Connection::new(pad(Lower, 3, 1), pad(Lower, 1, 2)),
    ];
    disconnect_column(&mut conns, key(Lower, 1));
    assert_eq!(conns, vec![Connection::new(pad(Lower, 2, 0), pad(Lower, 3, 1))]);
}

#[test]
fn added_connection_stays_only_when_routed() {
    let mut conns = vec![Connection::new(pad(Lower, 0, 0), pad(Lower, 1, 0))];
    let mut names: StrMap<String> = StrMap::new();
    let mut colors: StrMap<[u8; 4]> = StrMap::new();
    let mut pins: StrMap<i32> = StrMap::new();
    let out = add_connection_and_route(
        &mut conns,
        Connection::new(pad(Lower, 2, 0), pad(Lower, 3, 0)),
        1,
        &mut names,
        &mut colors,
        &mut pins,
        None,
    );
    assert_eq!(out.error, Some("Too many nets (2), max 1 rows available".to_string()));
    assert_eq!(conns.len(), 1);
    let out = add_connection_and_route(
        &mut conns,
        Connection::new(pad(Lower, 1, 1), pad(Lower, 2, 1)),
        1,
        &mut names,
        &mut colors,
        &mut pins,
        None,
    );
    assert!(out.error.is_none());
    assert_eq!(conns.len(), 2);
    assert!(out.jumper_state.unwrap().is_closed(Lower, 2, 0));
}

#[test]
fn marquee_keeps_columns_with_a_net() {
    let js = routed(4, &[Connection::new(pad(Lower, 0, 0), pad(Upper, 3, 0))]);
    let sel = vec![key(Lower, 0), key(Lower, 1), key(Upper, 3), key(Upper, 0)];
    assert_eq!(columns_with_net(&sel, &js, 4), vec![key(Lower, 0), key(Upper, 3)]);
    assert!(columns_with_net(&sel, &js, 0).is_empty());
}

#[test]
fn reordered_connections_route_alike() {
    let a = [
        Connection::new(pad(Lower, 0, 0), pad(Lower, 1, 0)),
        Connection::new(pad(Upper, 5, 0), pad(Lower, 2, 3)),
        Connection::new(pad(Lower, 1, 2), pad(Lower, 2, 2)),
    ];
    let b = [
        Connection::new(pad(Lower, 2, 1), pad(Lower, 1, 0)),
        Connection::new(ProtomatrixTarget::MatrixRow { side: Lower, row: 1 }, pad(Lower, 7, 0)),
        Connection::new(pad(Lower, 2, 3), pad(Upper, 5, 1)),
        Connection::new(pad(Lower, 1, 0), pad(Lower, 0, 2)),
    ];
    let ja = routed(4, &a);
    let jb = routed(4, &b);
    assert_eq!(ja.net_canonical_keys(), jb.net_canonical_keys());
    assert_eq!(format!("{:?}", ja), format!("{:?}", jb));
    assert_eq!(ja.columns_for_net(0), vec![key(Lower, 0), key(Lower, 1), key(Lower, 2), key(Upper, 5)]);
    assert_eq!(ja.net_for_row(0), Some(0));
}

#[test]
fn dialog_text_is_trimmed_or_cleared() {
    let mut names = map_of(&[("L0", "OLD".to_string()), ("L1", "KEEP".to_string())]);
    set_or_clear_text(&mut names, "L0", "  \tVCC 3V3\u{3000}\n");
    assert_eq!(names.get("L0"), Some(&"VCC 3V3".to_string()));
    set_or_clear_text(&mut names, "L2", "GND");
    assert_eq!(names.get("L2"), Some(&"GND".to_string()));
    set_or_clear_text(&mut names, "L0", " \u{a0} ");
    assert!(!names.contains_key("L0"));
    assert_eq!(names.get("L1"), Some(&"KEEP".to_string()));
    assert_eq!(names.len(), 2);
}

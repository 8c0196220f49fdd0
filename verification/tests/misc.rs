use protomatrix::protomatrix::{
    net_color, net_color_dimmed, net_color_highlight, ProtoSide, ProtomatrixPointerState,
    ProtomatrixTarget, Rgb, NET_COLOR_COUNT,
};
use protomatrix::strmap::StrMap;
use protomatrix::text::{is_blank_str, usize_to_decimal};

#[test]
fn palette_cycles() {
    assert_eq!(NET_COLOR_COUNT, 12);
    assert_eq!(net_color(0), Rgb { r: 0x40, g: 0xc0, b: 0x60 });
    assert_eq!(net_color(3), Rgb { r: 0xc0, g: 0x40, b: 0xff });
    assert_eq!(net_color(11), Rgb { r: 0x80, g: 0xc0, b: 0xff });
    assert_eq!(net_color(12), net_color(0));
    assert_eq!(net_color(25), net_color(1));
}

#[test]
fn highlight_and_dim_saturate() {
    assert_eq!(
        net_color_highlight(Rgb { r: 250, g: 10, b: 243 }),
        Rgb { r: 255, g: 22, b: 255 }
    );
    assert_eq!(net_color_dimmed(Rgb { r: 250, g: 10, b: 18 }), Rgb { r: 232, g: 0, b: 0 });
}

#[test]
fn pointer_state_records_hover_and_click() {
    let t = ProtomatrixTarget::Pad { side: ProtoSide::Upper, col: 1, row: 2 };
    let mut st = ProtomatrixPointerState::default();
    st.update(Some(t), false);
    assert_eq!(st.hovered, Some(t));
    assert_eq!(st.clicked, None);
    st.update(Some(t), true);
    assert_eq!(st.clicked, Some(t));
    st.update(None, false);
    assert_eq!(st.hovered, None);
    assert_eq!(st.clicked, None);
}

#[test]
fn other_side() {
    assert_eq!(ProtoSide::Lower.other(), ProtoSide::Upper);
    assert_eq!(ProtoSide::Upper.other(), ProtoSide::Lower);
}

#[test]
fn string_map_read_after_write() {
    let mut m: StrMap<i32> = StrMap::new();
    assert_eq!(m.insert("a".to_string(), 1), None);
    assert_eq!(m.insert("b".to_string(), 2), None);
    assert_eq!(m.insert("a".to_string(), 3), Some(1));
    assert_eq!(m.get("a"), Some(&3));
    assert_eq!(m.len(), 2);
    assert_eq!(m.key_at(0), "a");
    assert_eq!(m.value_at(1), &2);
    assert_eq!(m.remove("a"), Some(3));
    assert!(!m.contains_key("a"));
    assert_eq!(m.remove("a"), None);
    assert_eq!(m.key_list(), vec!["b".to_string()]);
    assert_eq!(m.into_entries(), vec![("b".to_string(), 2)]);
}

#[test]
fn text_helpers() {
    assert!(is_blank_str(""));
    assert!(is_blank_str(" \t\n"));
    assert!(!is_blank_str(" x "));
    assert_eq!(usize_to_decimal(0), "0");
    assert_eq!(usize_to_decimal(907), "907");
}

use protomatrix::kicad9::error::Error;
use protomatrix::kicad9::footprint::{
    element_kind, footprint_header, pad_header, pad_shape_from_atom, pad_type_from_atom,
    parse_layers, ElementKind, PadShape, PadType,
};
use protomatrix::kicad9::sexp::parse;
use protomatrix::layers::{
    element_color, is_copper, is_copper_from_pad_layers, is_courtyard, is_silkscreen,
    layer_drawable,
};
use protomatrix::protomatrix::Rgb;

const SIMPLE: &str = r#"(footprint "Test"
            (version 20241229)
            (layer "F.Cu")
            (descr "Test footprint")
            (pad "1" thru_hole circle (at 0 0) (size 2 2) (drill 1) (layers "*.Cu" "*.Mask"))
        )"#;

const LED: &str = r#"(footprint "LED_D3.0mm"
            (version 20241229)
            (layer "F.Cu")Dra
            (fp_line (start 0 0) (end 1 0) (stroke (width 0.12) (type solid)) (layer "F.SilkS"))
            (fp_arc (start -0.29 -1.23) (mid 1.36 -1.98) (end 2.94 -1.08) (stroke (width 0.12) (type solid)) (layer "F.SilkS"))
            (pad "1" thru_hole circle (at -1.27 0) (size 1.8 1.8) (drill 1) (layers "*.Cu" "*.Mask"))
        )"#;

const DIP16: &str = r#"(footprint "DIP-16_W7.62mm"
            (version 20241229)
            (generator "kicad-footprint-generator")
            (layer "F.Cu")
            (descr "16-lead though-hole mounted DIP package")
            (tags "THT DIP DIL PDIP 2.54mm 7.62mm 300mil")
            (property "Reference" "REF**" (at 3.81 -2.33 0) (layer "F.SilkS") (effects (font (size 1 1) (thickness 0.15))))
            (property "Value" "DIP-16_W7.62mm" (at 3.81 20.11 0) (layer "F.Fab") (effects (font (size 1 1) (thickness 0.15))))
            (attr through_hole)
            (fp_line (start 1.16 -1.33) (end 1.16 19.11) (stroke (width 0.12) (type solid)) (layer "F.SilkS"))
            (fp_arc (start 4.81 -1.33) (mid 3.81 -0.33) (end 2.81 -1.33) (stroke (width 0.12) (type solid)) (layer "F.SilkS"))
            (fp_rect (start -1.06 -1.52) (end 8.67 19.3) (stroke (width 0.05) (type solid)) (fill no) (layer "F.CrtYd"))
            (fp_text user "${REFERENCE}" (at 3.81 8.89 90) (layer "F.Fab") (effects (font (size 1 1) (thickness 0.15))))
            (pad "1" thru_hole roundrect (at 0 0) (size 1.6 1.6) (drill 0.8) (layers "*.Cu" "*.Mask") (roundrect_rratio 0.15625))
            (pad "2" thru_hole circle (at 0 2.54) (size 1.6 1.6) (drill 0.8) (layers "*.Cu" "*.Mask"))
        )"#;

fn kinds(input: &str) -> Vec<ElementKind> {
    let s = parse(input).unwrap();
    s.list_rest()
        .unwrap()
        .iter()
        .filter_map(|e| e.list_name().and_then(element_kind))
        .collect()
}

#[test]
fn header_of_simple_footprint() {
    let s = parse(SIMPLE).unwrap();
    let h = footprint_header(&s).unwrap();
    assert_eq!(h.name, "Test");
    assert_eq!(h.layer, "F.Cu");
    assert_eq!(h.version.as_deref(), Some("20241229"));
    assert_eq!(h.description.as_deref(), Some("Test footprint"));
    let pads = s.find_all("pad");
    assert_eq!(pads.len(), 1);
    let pad = pad_header(pads[0]).unwrap();
    assert_eq!(pad.name, "1");
    assert_eq!(pad.shape, PadShape::Circle);
    assert_eq!(pad.ty, PadType::ThruHole);
    assert_eq!(pad.layers, vec!["*.Cu".to_string(), "*.Mask".to_string()]);
}

#[test]
fn header_of_kicad9_footprint_with_stray_atom() {
    let s = parse(LED).unwrap();
    let h = footprint_header(&s).unwrap();
    assert_eq!(h.name, "LED_D3.0mm");
    let k = kinds(LED);
    assert_eq!(k.iter().filter(|e| **e == ElementKind::FpArc).count(), 1);
    assert_eq!(k.iter().filter(|e| **e == ElementKind::Pad).count(), 1);
}

#[test]
fn header_of_dip16_footprint() {
    let s = parse(DIP16).unwrap();
    let h = footprint_header(&s).unwrap();
    assert_eq!(h.name, "DIP-16_W7.62mm");
    assert_eq!(h.version.as_deref(), Some("20241229"));
    assert_eq!(h.generator.as_deref(), Some("kicad-footprint-generator"));
    assert_eq!(h.attr.as_deref(), Some("through_hole"));
    assert_eq!(h.tags.as_deref(), Some("THT DIP DIL PDIP 2.54mm 7.62mm 300mil"));
    assert_eq!(h.properties.len(), 2);
    assert_eq!(h.properties[0].key, "Reference");
    assert_eq!(h.properties[0].value, "REF**");
    assert_eq!(h.properties[1].key, "Value");
    assert_eq!(h.properties[1].value, "DIP-16_W7.62mm");
    let pads: Vec<_> = s.find_all("pad").into_iter().map(|p| pad_header(p).unwrap()).collect();
    assert_eq!(pads.len(), 2);
    assert_eq!(pads[0].name, "1");
    assert_eq!(pads[0].shape, PadShape::RoundRect);
    assert_eq!(pads[1].name, "2");
    assert_eq!(pads[1].shape, PadShape::Circle);
    let k = kinds(DIP16);
    assert_eq!(k.iter().filter(|e| **e == ElementKind::FpLine).count(), 1);
    assert_eq!(k.iter().filter(|e| **e == ElementKind::FpArc).count(), 1);
    assert_eq!(k.iter().filter(|e| **e == ElementKind::FpRect).count(), 1);
    assert_eq!(k.iter().filter(|e| **e == ElementKind::FpText).count(), 1);
    assert_eq!(k.iter().filter(|e| **e == ElementKind::Pad).count(), 2);
}

#[test]
fn legacy_module_root_and_defaults() {
    let s = parse("(module X (layer) (layer \"B.Cu\") (layer))").unwrap();
    let h = footprint_header(&s).unwrap();
    assert_eq!(h.name, "X");
    assert_eq!(h.layer, "F.Cu");
    assert!(h.version.is_none());
    assert!(h.properties.is_empty());
    let s2 = parse("(module (x))").unwrap();
    let h2 = footprint_header(&s2).unwrap();
    assert_eq!(h2.name, "");
}

#[test]
fn wrong_root_is_an_error() {
    let s = parse("(kicad_pcb (version 1))").unwrap();
    match footprint_header(&s) {
        Err(Error::Parse { message, offset }) => {
            assert_eq!(message, "Expected (footprint ...) or (module ...), got (kicad_pcb)");
            assert!(offset.is_none());
        }
        _ => panic!("expected a parse error"),
    }
    let a = parse("footprint").unwrap();
    match footprint_header(&a) {
        Err(Error::Parse { message, offset }) => {
            assert_eq!(message, "Expected footprint list");
            assert!(offset.is_none());
        }
        _ => panic!("expected a parse error"),
    }
}

#[test]
fn property_without_value_is_skipped() {
    let s = parse("(footprint F (property \"K\") (property \"A\" \"B\"))").unwrap();
    let h = footprint_header(&s).unwrap();
    assert_eq!(h.properties.len(), 1);
    assert_eq!(h.properties[0].key, "A");
}

#[test]
fn pad_kinds_default() {
    assert_eq!(pad_type_from_atom(Some("smd")), PadType::Smd);
    assert_eq!(pad_type_from_atom(Some("np_thru_hole")), PadType::NpThruHole);
    assert_eq!(pad_type_from_atom(Some("connect")), PadType::Connect);
    assert_eq!(pad_type_from_atom(Some("weird")), PadType::ThruHole);
    assert_eq!(pad_type_from_atom(None), PadType::ThruHole);
    assert_eq!(pad_shape_from_atom(Some("oval")), PadShape::Oval);
    assert_eq!(pad_shape_from_atom(Some("trapezoid")), PadShape::Trapezoid);
    assert_eq!(pad_shape_from_atom(Some("custom")), PadShape::Custom);
    assert_eq!(pad_shape_from_atom(Some("hexagon")), PadShape::Rect);
    assert_eq!(pad_shape_from_atom(None), PadShape::Rect);
}

#[test]
fn pad_header_of_atom_is_an_error() {
    let a = parse("pad").unwrap();
    match pad_header(&a) {
        Err(Error::Parse { message, offset }) => {
            assert_eq!(message, "pad: expected list");
            assert!(offset.is_none());
        }
        _ => panic!("expected a parse error"),
    }
    let bare = parse("(pad)").unwrap();
    let p = pad_header(&bare).unwrap();
    assert_eq!(p.name, "");
    assert_eq!(p.ty, PadType::ThruHole);
    assert_eq!(p.shape, PadShape::Rect);
    assert!(p.layers.is_empty());
}

#[test]
fn layers_list_keeps_atoms_only() {
    let s = parse("(layers \"F.Cu\" (x) \"F.Paste\")").unwrap();
    assert_eq!(parse_layers(Some(&s)), vec!["F.Cu".to_string(), "F.Paste".to_string()]);
    assert!(parse_layers(None).is_empty());
    let a = parse("F.Cu").unwrap();
    assert!(parse_layers(Some(&a)).is_empty());
}

#[test]
fn layer_classes() {
    assert!(layer_drawable("F.Fab"));
    assert!(layer_drawable("*.Paste"));
    assert!(!layer_drawable("Edge.Cuts"));
    assert!(is_copper("*.Cu"));
    assert!(!is_copper("F.Mask"));
    assert!(is_silkscreen("B.SilkS"));
    assert!(is_courtyard("F.CrtYd"));
    assert!(!is_courtyard("F.Fab"));
    assert!(is_copper_from_pad_layers(&["F.Mask".to_string(), "B.Cu".to_string()]));
    assert!(!is_copper_from_pad_layers(&["F.Mask".to_string()]));
}

#[test]
fn element_colors() {
    assert_eq!(element_color("F.Cu"), Rgb { r: 0xb5, g: 0x73, b: 0x3c });
    assert_eq!(element_color("F.SilkS"), Rgb { r: 0xff, g: 0xff, b: 0xe0 });
    assert_eq!(element_color("B.CrtYd"), Rgb { r: 0x99, g: 0x33, b: 0xff });
    assert_eq!(element_color("F.Fab"), Rgb { r: 0x60, g: 0x60, b: 0x60 });
}

#[test]
fn element_kinds_by_name() {
    assert_eq!(element_kind("fp_circle"), Some(ElementKind::FpCircle));
    assert_eq!(element_kind("fp_poly"), Some(ElementKind::FpPoly));
    assert_eq!(element_kind("fp_curve"), Some(ElementKind::FpCurve));
    assert_eq!(element_kind("model"), Some(ElementKind::Model));
    assert_eq!(element_kind("embedded_fonts"), None);
}

#[test]
fn neutral_children_leave_the_header() {
    let plain = parse("(footprint \"F\" (version 7) (descr \"d\") (property \"Reference\" \"U1\"))").unwrap();
    let busy = parse(
        "(footprint \"F\" stray (pad \"1\" smd rect) (version 7) (embedded_fonts no) 42 (descr \"d\") \
         (fp_line (start 0 0)) (property \"Reference\" \"U1\") (model \"x.wrl\"))",
    )
    .unwrap();
    let a = footprint_header(&plain).unwrap();
    let b = footprint_header(&busy).unwrap();
    assert_eq!(format!("{:?}", a), format!("{:?}", b));
    assert_eq!(b.version.as_deref(), Some("7"));
    assert_eq!(b.description.as_deref(), Some("d"));
}

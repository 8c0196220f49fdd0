//! Which footprint layers are drawn, and in which color.

use vstd::prelude::*;
use crate::protomatrix::Rgb;
use crate::text::str_eq;

verus! {

/// Layer names drawn: copper, mask, silkscreen, fabrication and courtyard of both sides, and the
/// wildcard layers that pads use (`*.Cu`, `*.Mask`, `*.Paste`).
pub open spec fn drawable_layer(layer: Seq<char>) -> bool {
    layer == "F.Cu"@ || layer == "B.Cu"@ || layer == "F.Mask"@ || layer == "B.Mask"@ || layer == "F.SilkS"@
        || layer == "B.SilkS"@ || layer == "F.Fab"@ || layer == "B.Fab"@ || layer == "F.CrtYd"@ || layer
        == "B.CrtYd"@ || layer == "*.Cu"@ || layer == "*.Mask"@ || layer == "*.Paste"@
}

/// A copper layer: `F.Cu`, `B.Cu` or the wildcard `*.Cu`.
pub open spec fn copper_layer(layer: Seq<char>) -> bool {
    layer == "F.Cu"@ || layer == "B.Cu"@ || layer == "*.Cu"@
}

/// A silkscreen layer.
pub open spec fn silkscreen_layer(layer: Seq<char>) -> bool {
    layer == "F.SilkS"@ || layer == "B.SilkS"@
}

/// A courtyard layer.
pub open spec fn courtyard_layer(layer: Seq<char>) -> bool {
    layer == "F.CrtYd"@ || layer == "B.CrtYd"@
}

/// The layers drawn are exactly the classified ones: every copper, silkscreen and courtyard
/// layer, the fabrication and mask layers of both sides, and the `*.Mask` and `*.Paste` pad
/// wildcards; no other layer is drawn.
pub proof fn lemma_drawable_layers(layer: Seq<char>)
    ensures
        drawable_layer(layer) <==> (copper_layer(layer) || silkscreen_layer(layer) || courtyard_layer(layer)
            || layer == "F.Fab"@ || layer == "B.Fab"@ || layer == "F.Mask"@ || layer == "B.Mask"@ || layer
            == "*.Mask"@ || layer == "*.Paste"@),
{
}

pub fn layer_drawable(layer: &str) -> (r: bool)
    ensures
        r == drawable_layer(layer@),
{
    str_eq(layer, "F.Cu") || str_eq(layer, "B.Cu") || str_eq(layer, "F.Mask") || str_eq(layer, "B.Mask")
        || str_eq(layer, "F.SilkS") || str_eq(layer, "B.SilkS") || str_eq(layer, "F.Fab") || str_eq(
        layer,
        "B.Fab",
    ) || str_eq(layer, "F.CrtYd") || str_eq(layer, "B.CrtYd") || str_eq(layer, "*.Cu") || str_eq(
        layer,
        "*.Mask",
    ) || str_eq(layer, "*.Paste")
}

pub fn is_copper(layer: &str) -> (r: bool)
    ensures
        r == copper_layer(layer@),
{
    str_eq(layer, "F.Cu") || str_eq(layer, "B.Cu") || str_eq(layer, "*.Cu")
}

pub fn is_silkscreen(layer: &str) -> (r: bool)
    ensures
        r == silkscreen_layer(layer@),
{
    str_eq(layer, "F.SilkS") || str_eq(layer, "B.SilkS")
}

pub fn is_courtyard(layer: &str) -> (r: bool)
    ensures
        r == courtyard_layer(layer@),
{
    str_eq(layer, "F.CrtYd") || str_eq(layer, "B.CrtYd")
}

/// Some of a pad's layers is copper.
pub fn is_copper_from_pad_layers(layers: &[String]) -> (r: bool)
    ensures
        r == exists|i: int| 0 <= i < layers@.len() && copper_layer(#[trigger] layers@[i]@),
{
    let mut i: usize = 0;
    while i < layers.len()
        invariant
            i <= layers@.len(),
            forall|j: int| 0 <= j < i ==> !copper_layer(#[trigger] layers@[j]@),
        decreases layers.len() - i,
    {
        if is_copper(layers[i].as_str()) {
            return true;
        }
        i = i + 1;
    }
    false
}

/// Copper drawing color.
pub open spec fn copper_color() -> Rgb {
    Rgb { r: 0xb5, g: 0x73, b: 0x3c }
}

/// Silkscreen drawing color (white/cream).
pub open spec fn silkscreen_color() -> Rgb {
    Rgb { r: 0xff, g: 0xff, b: 0xe0 }
}

/// Courtyard outline color.
pub open spec fn courtyard_color() -> Rgb {
    Rgb { r: 0x99, g: 0x33, b: 0xff }
}

/// Color of any other outline.
pub open spec fn outline_color() -> Rgb {
    Rgb { r: 0x60, g: 0x60, b: 0x60 }
}

/// Drawing color of an element on `layer`: copper, silkscreen, courtyard, else outline.
pub fn element_color(layer: &str) -> (c: Rgb)
    ensures
        c == (if copper_layer(layer@) {
            copper_color()
        } else if silkscreen_layer(layer@) {
            silkscreen_color()
        } else if courtyard_layer(layer@) {
            courtyard_color()
        } else {
            outline_color()
        }),
{
    if is_copper(layer) {
        Rgb { r: 0xb5, g: 0x73, b: 0x3c }
    } else if is_silkscreen(layer) {
        Rgb { r: 0xff, g: 0xff, b: 0xe0 }
    } else if is_courtyard(layer) {
        Rgb { r: 0x99, g: 0x33, b: 0xff }
    } else {
        Rgb { r: 0x60, g: 0x60, b: 0x60 }
    }
}

} // verus!

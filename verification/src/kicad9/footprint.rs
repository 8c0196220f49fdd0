//! The text parts of a KiCad footprint: its header (name, version, generator, layer,
//! description, tags, attributes, properties), pad names, kinds and layers, and which child
//! lists are drawing elements.

use vstd::prelude::*;
use crate::kicad9::error::Error;
use crate::kicad9::sexp::{child_named, has_name, Sexp};
use crate::text::str_eq;

verus! {

/// Property (Reference, Value, Datasheet, Description).
#[derive(Debug, Clone)]
pub struct Property {
    pub key: String,
    pub value: String,
}

#[derive(Debug, Clone, Copy, PartialEq, Eq, Structural)]
pub enum PadType {
    Smd,
    ThruHole,
    NpThruHole,
    Connect,
}

#[derive(Debug, Clone, Copy, PartialEq, Eq, Structural)]
pub enum PadShape {
    Circle,
    Rect,
    Oval,
    Trapezoid,
    RoundRect,
    Custom,
}

/// The text of an atom.
pub open spec fn atom_text(e: Sexp) -> Option<Seq<char>> {
    match e {
        Sexp::Atom(t) => Some(t@),
        Sexp::List(_, _) => None,
    }
}

/// The text of the `i`-th item, when it is an atom.
pub open spec fn item_text(items: Seq<Sexp>, i: int) -> Option<Seq<char>> {
    if 0 <= i < items.len() {
        atom_text(items[i])
    } else {
        None
    }
}

/// The pad type a type word names; any other word, or none, is a through-hole pad.
pub open spec fn pad_type_of(word: Option<Seq<char>>) -> PadType {
    match word {
        Some(w) => if w == "smd"@ {
            PadType::Smd
        } else if w == "thru_hole"@ {
            PadType::ThruHole
        } else if w == "np_thru_hole"@ {
            PadType::NpThruHole
        } else if w == "connect"@ {
            PadType::Connect
        } else {
            PadType::ThruHole
        },
        None => PadType::ThruHole,
    }
}

/// The pad shape a shape word names; any other word, or none, is a rectangle.
pub open spec fn pad_shape_of(word: Option<Seq<char>>) -> PadShape {
    match word {
        Some(w) => if w == "circle"@ {
            PadShape::Circle
        } else if w == "rect"@ {
            PadShape::Rect
        } else if w == "oval"@ {
            PadShape::Oval
        } else if w == "trapezoid"@ {
            PadShape::Trapezoid
        } else if w == "roundrect"@ {
            PadShape::RoundRect
        } else if w == "custom"@ {
            PadShape::Custom
        } else {
            PadShape::Rect
        },
        None => PadShape::Rect,
    }
}

fn opt_text_eq(word: Option<&str>, lit: &str) -> (r: bool)
    ensures
        r == (word matches Some(w) && w@ == lit@),
{
    match word {
        Some(w) => str_eq(w, lit),
        None => false,
    }
}

/// Pad type from its type word.
pub fn pad_type_from_atom(word: Option<&str>) -> (r: PadType)
    ensures
        r == pad_type_of(match word {
            Some(w) => Some(w@),
            None => None,
        }),
{
    if opt_text_eq(word, "smd") {
        PadType::Smd
    } else if opt_text_eq(word, "thru_hole") {
        PadType::ThruHole
    } else if opt_text_eq(word, "np_thru_hole") {
        PadType::NpThruHole
    } else if opt_text_eq(word, "connect") {
        PadType::Connect
    } else {
        PadType::ThruHole
    }
}

/// Pad shape from its shape word.
pub fn pad_shape_from_atom(word: Option<&str>) -> (r: PadShape)
    ensures
        r == pad_shape_of(match word {
            Some(w) => Some(w@),
            None => None,
        }),
{
    if opt_text_eq(word, "circle") {
        PadShape::Circle
    } else if opt_text_eq(word, "rect") {
        PadShape::Rect
    } else if opt_text_eq(word, "oval") {
        PadShape::Oval
    } else if opt_text_eq(word, "trapezoid") {
        PadShape::Trapezoid
    } else if opt_text_eq(word, "roundrect") {
        PadShape::RoundRect
    } else if opt_text_eq(word, "custom") {
        PadShape::Custom
    } else {
        PadShape::Rect
    }
}

/// The texts of the atoms among `items`, in order.
pub open spec fn atom_texts(items: Seq<Sexp>) -> Seq<Seq<char>>
    decreases items.len(),
{
    if items.len() == 0 {
        Seq::empty()
    } else {
        match atom_text(items.last()) {
            Some(t) => atom_texts(items.drop_last()).push(t),
            None => atom_texts(items.drop_last()),
        }
    }
}

/// The layer names of a `(layers ...)` list: the texts of its atoms.
pub open spec fn layers_of(sexp: Option<Sexp>) -> Seq<Seq<char>> {
    match sexp {
        Some(Sexp::List(_, rest)) => atom_texts(rest@),
        _ => Seq::empty(),
    }
}

/// The texts of strings, in order.
pub open spec fn texts(v: Seq<String>) -> Seq<Seq<char>> {
    v.map_values(|s: String| s@)
}

fn to_string(s: &str) -> (r: String)
    ensures
        r@ == s@,
{
    String::from_str(s)
}

pub fn parse_layers(sexp: Option<&Sexp>) -> (r: Vec<String>)
    ensures
        texts(r@) == layers_of(match sexp {
            Some(e) => Some(*e),
            None => None,
        }),
{
    let s = match sexp {
        Some(s) => s,
        None => {
            let v: Vec<String> = Vec::new();
            assert(texts(v@) =~= Seq::<Seq<char>>::empty());
            return v;
        },
    };
    let rest = match s.list_rest() {
        Some(rest) => rest,
        None => {
            let v: Vec<String> = Vec::new();
            assert(texts(v@) =~= Seq::<Seq<char>>::empty());
            return v;
        },
    };
    let mut out: Vec<String> = Vec::new();
    let mut i: usize = 0;
    while i < rest.len()
        invariant
            i <= rest@.len(),
            texts(out@) == atom_texts(rest@.take(i as int)),
        decreases rest.len() - i,
    {
        proof {
            assert(rest@.take(i + 1).drop_last() =~= rest@.take(i as int));
            assert(rest@.take(i + 1).last() == rest@[i as int]);
        }
        match rest[i].string() {
            Some(t) => {
                let ghost before = out@;
                out.push(to_string(t));
                proof {
                    assert(texts(out@) =~= texts(before).push(t@));
                }
            },
            None => {},
        }
        i = i + 1;
    }
    proof {
        assert(rest@.take(rest@.len() as int) =~= rest@);
    }
    out
}

/// The header fields of a footprint, as text.
pub struct HeaderView {
    pub name: Seq<char>,
    pub version: Option<Seq<char>>,
    pub generator: Option<Seq<char>>,
    pub layer: Seq<char>,
    pub description: Option<Seq<char>>,
    pub tags: Option<Seq<char>>,
    pub attr: Option<Seq<char>>,
    pub properties: Seq<(Seq<char>, Seq<char>)>,
}

/// The header before any child list: the footprint's name (its first item, empty when that is
/// not an atom) and layer `F.Cu`.
pub open spec fn initial_header(rest: Seq<Sexp>) -> HeaderView {
    HeaderView {
        name: match item_text(rest, 0) {
            Some(t) => t,
            None => ""@,
        },
        version: None,
        generator: None,
        layer: "F.Cu"@,
        description: None,
        tags: None,
        attr: None,
        properties: Seq::empty(),
    }
}

/// The header after one more child: `version`, `generator`, `layer`, `descr`, `tags` and `attr`
/// lists set their field from their first item (a later list overriding an earlier one; a
/// `layer` list without a text item sets `F.Cu`); a `property` list with a key and value text
/// adds a property; anything else is left as it is.
pub open spec fn header_step(h: HeaderView, e: Sexp) -> HeaderView {
    match e {
        Sexp::List(n, args) => {
            let a = args@;
            let first = item_text(a, 0);
            if n@ == "version"@ {
                HeaderView { version: first, ..h }
            } else if n@ == "generator"@ {
                HeaderView { generator: first, ..h }
            } else if n@ == "layer"@ {
                HeaderView {
                    layer: match first {
                        Some(t) => t,
                        None => "F.Cu"@,
                    },
                    ..h
                }
            } else if n@ == "descr"@ {
                HeaderView { description: first, ..h }
            } else if n@ == "tags"@ {
                HeaderView { tags: first, ..h }
            } else if n@ == "attr"@ {
                HeaderView { attr: first, ..h }
            } else if n@ == "property"@ {
                match (item_text(a, 0), item_text(a, 1)) {
                    (Some(k), Some(v)) => HeaderView { properties: h.properties.push((k, v)), ..h },
                    _ => h,
                }
            } else {
                h
            }
        },
        Sexp::Atom(_) => h,
    }
}

/// The header after the children `items`, in order.
pub open spec fn header_fold(h: HeaderView, items: Seq<Sexp>) -> HeaderView
    decreases items.len(),
{
    if items.len() == 0 {
        h
    } else {
        header_step(header_fold(h, items.drop_last()), items.last())
    }
}

/// The header of a footprint list whose items are `rest`: the name, then the children after it.
pub open spec fn header_of(rest: Seq<Sexp>) -> HeaderView {
    if rest.len() == 0 {
        initial_header(rest)
    } else {
        header_fold(initial_header(rest), rest.drop_first())
    }
}

/// A child that sets no header field: an atom, or a list whose name is none of `version`,
/// `generator`, `layer`, `descr`, `tags`, `attr` and `property`.
pub open spec fn header_neutral(e: Sexp) -> bool {
    match e {
        Sexp::List(n, _) => n@ != "version"@ && n@ != "generator"@ && n@ != "layer"@ && n@ != "descr"@ && n@
            != "tags"@ && n@ != "attr"@ && n@ != "property"@,
        Sexp::Atom(_) => true,
    }
}

/// The children that set header fields, in order.
pub open spec fn header_children(items: Seq<Sexp>) -> Seq<Sexp> {
    items.filter(|e: Sexp| !header_neutral(e))
}

proof fn lemma_header_fold_children(h: HeaderView, items: Seq<Sexp>)
    ensures
        header_fold(h, items) == header_fold(h, header_children(items)),
    decreases items.len(),
{
    reveal(Seq::filter);
    if items.len() > 0 {
        let d = items.drop_last();
        lemma_header_fold_children(h, d);
        let f = header_children(d);
        if header_neutral(items.last()) {
            assert(header_children(items) == f);
            assert(header_step(header_fold(h, d), items.last()) == header_fold(h, d));
        } else {
            assert(header_children(items) == f.push(items.last()));
            assert(f.push(items.last()).drop_last() =~= f);
        }
    }
}

/// Children that set no header field (atoms, and lists such as `pad`, `fp_line`, `model` or
/// `embedded_fonts`) leave the header as it is: two footprint lists with the same name item and
/// the same header-setting children, in the same order, have the same header.
pub proof fn lemma_header_ignores_neutral(rest1: Seq<Sexp>, rest2: Seq<Sexp>)
    requires
        rest1.len() > 0,
        rest2.len() > 0,
        rest1[0] == rest2[0],
        header_children(rest1.drop_first()) == header_children(rest2.drop_first()),
    ensures
        header_of(rest1) == header_of(rest2),
{
    assert(initial_header(rest1) == initial_header(rest2));
    lemma_header_fold_children(initial_header(rest1), rest1.drop_first());
    lemma_header_fold_children(initial_header(rest2), rest2.drop_first());
}

/// The text of the first item of `args`, when there is one and it is an atom.
pub open spec fn first_atom(args: Seq<Sexp>) -> Option<Seq<char>> {
    if args.len() > 0 {
        match args[0] {
            Sexp::Atom(w) => Some(w@),
            Sexp::List(_, _) => None,
        }
    } else {
        None
    }
}

proof fn lemma_fold_attr(h: HeaderView, items: Seq<Sexp>)
    ensures
        (forall|j: int| 0 <= j < items.len() ==> !has_name(#[trigger] items[j], "attr"@)) ==> header_fold(
            h,
            items,
        ).attr == h.attr,
        forall|q: int|
            0 <= q < items.len() && has_name(#[trigger] items[q], "attr"@) && (forall|j: int|
                q < j < items.len() ==> !has_name(#[trigger] items[j], "attr"@)) ==> match items[q] {
                Sexp::List(_, args) => header_fold(h, items).attr == first_atom(args@),
                Sexp::Atom(_) => true,
            },
    decreases items.len(),
{
    if items.len() > 0 {
        let d = items.drop_last();
        let last = items.last();
        lemma_fold_attr(h, d);
        assert(header_fold(h, items) == header_step(header_fold(h, d), last));
        if (forall|j: int| 0 <= j < items.len() ==> !has_name(#[trigger] items[j], "attr"@)) {
            assert forall|j: int| 0 <= j < d.len() implies !has_name(#[trigger] d[j], "attr"@) by {
                assert(d[j] == items[j]);
            }
            assert(!has_name(items[items.len() - 1], "attr"@));
        }
        assert forall|q: int|
            0 <= q < items.len() && has_name(#[trigger] items[q], "attr"@) && (forall|j: int|
                q < j < items.len() ==> !has_name(#[trigger] items[j], "attr"@)) implies match items[q] {
                Sexp::List(_, args) => header_fold(h, items).attr == first_atom(args@),
                Sexp::Atom(_) => true,
            } by {
            if q == items.len() - 1 {
                assert(items[q] == last);
                reveal_strlit("attr");
                reveal_strlit("version");
                reveal_strlit("generator");
                reveal_strlit("layer");
                reveal_strlit("descr");
                reveal_strlit("tags");
                match last {
                    Sexp::List(n, args) => {
                        assert(n@ == "attr"@);
                        assert("attr"@.len() == 4);
                        assert("version"@.len() == 7);
                        assert(n@ != "version"@);
                        assert("generator"@.len() == 9);
                        assert("layer"@.len() == 5);
                        assert("descr"@.len() == 5);
                        assert("attr"@[0] == 'a' && "tags"@[0] == 't');
                        assert(n@ != "generator"@ && n@ != "layer"@ && n@ != "descr"@ && n@ != "tags"@);
                        assert(header_step(header_fold(h, d), last).attr == item_text(args@, 0));
                        assert(item_text(args@, 0) == first_atom(args@));
                    },
                    Sexp::Atom(_) => {},
                }
            } else {
                assert(!has_name(items[items.len() - 1], "attr"@));
                assert(d[q] == items[q]);
                assert forall|j: int| q < j < d.len() implies !has_name(#[trigger] d[j], "attr"@) by {
                    assert(d[j] == items[j]);
                }
            }
        }
    }
}

/// The `attr` of a footprint comes from its last `attr` child: it is the first item of that
/// list when that item is an atom (whatever follows it), and nothing otherwise; the children
/// after it leave it as it is. Without an `attr` child there is no `attr`.
pub proof fn lemma_header_attr(rest: Seq<Sexp>)
    requires
        rest.len() > 0,
    ensures
        (forall|j: int| 1 <= j < rest.len() ==> !has_name(#[trigger] rest[j], "attr"@)) ==> header_of(rest).attr
            is None,
        forall|k: int|
            1 <= k < rest.len() && has_name(#[trigger] rest[k], "attr"@) && (forall|j: int|
                k < j < rest.len() ==> !has_name(#[trigger] rest[j], "attr"@)) ==> match rest[k] {
                Sexp::List(_, args) => header_of(rest).attr == first_atom(args@),
                Sexp::Atom(_) => true,
            },
{
    let items = rest.drop_first();
    lemma_fold_attr(initial_header(rest), items);
    if forall|j: int| 1 <= j < rest.len() ==> !has_name(#[trigger] rest[j], "attr"@) {
        assert forall|j: int| 0 <= j < items.len() implies !has_name(#[trigger] items[j], "attr"@) by {
            assert(items[j] == rest[j + 1]);
        }
    }
    assert forall|k: int|
        1 <= k < rest.len() && has_name(#[trigger] rest[k], "attr"@) && (forall|j: int|
            k < j < rest.len() ==> !has_name(#[trigger] rest[j], "attr"@)) implies match rest[k] {
            Sexp::List(_, args) => header_of(rest).attr == first_atom(args@),
            Sexp::Atom(_) => true,
        } by {
        let q = k - 1;
        assert(items[q] == rest[k]);
        assert forall|j: int| q < j < items.len() implies !has_name(#[trigger] items[j], "attr"@) by {
            assert(items[j] == rest[j + 1]);
        }
    }
}

/// The text fields of a KiCad 9 footprint.
#[derive(Debug, Clone)]
pub struct FootprintHeader {
    pub name: String,
    pub version: Option<String>,
    pub generator: Option<String>,
    pub layer: String,
    pub description: Option<String>,
    pub tags: Option<String>,
    pub attr: Option<String>, // "smd" | "through_hole"
    pub properties: Vec<Property>,
}

/// The text of an optional string.
pub open spec fn opt_text(o: Option<String>) -> Option<Seq<char>> {
    match o {
        Some(s) => Some(s@),
        None => None,
    }
}

impl FootprintHeader {
    pub open spec fn view(&self) -> HeaderView {
        HeaderView {
            name: self.name@,
            version: opt_text(self.version),
            generator: opt_text(self.generator),
            layer: self.layer@,
            description: opt_text(self.description),
            tags: opt_text(self.tags),
            attr: opt_text(self.attr),
            properties: self.properties@.map_values(|p: Property| (p.key@, p.value@)),
        }
    }
}

fn first_text(items: &[Sexp], i: usize) -> (r: Option<String>)
    ensures
        opt_text(r) == item_text(items@, i as int),
{
    if i < items.len() {
        match items[i].string() {
            Some(t) => Some(to_string(t)),
            None => None,
        }
    } else {
        None
    }
}

fn apply_child(h: &mut FootprintHeader, e: &Sexp)
    ensures
        final(h).view() == header_step(old(h).view(), *e),
{
    if let Sexp::List(n, args) = e {
        let name = n.as_str();
        if str_eq(name, "version") {
            h.version = first_text(args.as_slice(), 0);
        } else if str_eq(name, "generator") {
            h.generator = first_text(args.as_slice(), 0);
        } else if str_eq(name, "layer") {
            h.layer = match first_text(args.as_slice(), 0) {
                Some(t) => t,
                None => to_string("F.Cu"),
            };
        } else if str_eq(name, "descr") {
            h.description = first_text(args.as_slice(), 0);
        } else if str_eq(name, "tags") {
            h.tags = first_text(args.as_slice(), 0);
        } else if str_eq(name, "attr") {
            h.attr = first_text(args.as_slice(), 0);
        } else if str_eq(name, "property") {
            match (first_text(args.as_slice(), 0), first_text(args.as_slice(), 1)) {
                (Some(k), Some(v)) => {
                    let ghost before = h.properties@;
                    h.properties.push(Property { key: k, value: v });
                    proof {
                        assert(h.properties@.map_values(|p: Property| (p.key@, p.value@)) =~= before.map_values(
                            |p: Property| (p.key@, p.value@),
                        ).push((k@, v@)));
                    }
                },
                _ => {},
            }
        }
    }
}

/// Reads the header of a footprint: the root must be a `(footprint ...)` or `(module ...)` list.
pub fn footprint_header(s: &Sexp) -> (r: Result<FootprintHeader, Error>)
    ensures
        match *s {
            Sexp::List(n, rest) => if n@ == "footprint"@ || n@ == "module"@ {
                r matches Ok(h) && h.view() == header_of(rest@)
            } else {
                r matches Err(Error::Parse { message, offset }) && message@ == "Expected (footprint ...) or (module ...), got ("@
                    + n@ + ")"@ && offset is None
            },
            Sexp::Atom(_) => r matches Err(Error::Parse { message, offset }) && message@ == "Expected footprint list"@
                && offset is None,
        },
{
    let rest = match s {
        Sexp::List(n, r) => {
            if str_eq(n.as_str(), "footprint") || str_eq(n.as_str(), "module") {
                r
            } else {
                let mut message = String::from_str("Expected (footprint ...) or (module ...), got (");
                message.append(n.as_str());
                message.append(")");
                return Err(Error::Parse { message, offset: None });
            }
        },
        Sexp::Atom(_) => {
            return Err(Error::Parse { message: String::from_str("Expected footprint list"), offset: None });
        },
    };
    let mut h = FootprintHeader {
        name: match first_text(rest.as_slice(), 0) {
            Some(t) => t,
            None => to_string(""),
        },
        version: None,
        generator: None,
        layer: to_string("F.Cu"),
        description: None,
        tags: None,
        attr: None,
        properties: Vec::new(),
    };
    proof {
        assert(h.properties@.map_values(|p: Property| (p.key@, p.value@)) =~= Seq::<(Seq<char>, Seq<char>)>::empty());
        assert(h.view() == initial_header(rest@));
    }
    if rest.len() == 0 {
        return Ok(h);
    }
    let mut i: usize = 1;
    while i < rest.len()
        invariant
            rest@.len() > 0,
            1 <= i <= rest@.len(),
            h.view() == header_fold(initial_header(rest@), rest@.subrange(1, i as int)),
        decreases rest.len() - i,
    {
        proof {
            assert(rest@.subrange(1, i + 1).drop_last() =~= rest@.subrange(1, i as int));
            assert(rest@.subrange(1, i + 1).last() == rest@[i as int]);
        }
        apply_child(&mut h, &rest[i]);
        i = i + 1;
    }
    proof {
        assert(rest@.subrange(1, rest@.len() as int) =~= rest@.drop_first());
    }
    Ok(h)
}

/// The text fields of a pad: its name, type, shape and layers.
#[derive(Debug, Clone)]
pub struct PadHeader {
    pub name: String,
    pub ty: PadType,
    pub shape: PadShape,
    pub layers: Vec<String>,
}

/// Reads the text fields of a `(pad NAME TYPE SHAPE ...)` list: a missing name is empty, a
/// missing or unknown type is through-hole, a missing or unknown shape is a rectangle, and the
/// layers are those of its first `layers` child.
pub fn pad_header(sexp: &Sexp) -> (r: Result<PadHeader, Error>)
    ensures
        match *sexp {
            Sexp::List(_, rest) => r matches Ok(p) && p.name@ == (match item_text(rest@, 0) {
                Some(t) => t,
                None => ""@,
            }) && p.ty == pad_type_of(item_text(rest@, 1)) && p.shape == pad_shape_of(item_text(rest@, 2))
                && texts(p.layers@) == layers_of(child_named(*sexp, "layers"@)),
            Sexp::Atom(_) => r matches Err(Error::Parse { message, offset }) && message@ == "pad: expected list"@
                && offset is None,
        },
{
    let rest = match sexp.list_rest() {
        Some(r) => r,
        None => {
            return Err(Error::Parse { message: String::from_str("pad: expected list"), offset: None });
        },
    };
    let name = match first_text(rest, 0) {
        Some(t) => t,
        None => to_string(""),
    };
    let ty_word = if rest.len() > 1 {
        rest[1].string()
    } else {
        None
    };
    let shape_word = if rest.len() > 2 {
        rest[2].string()
    } else {
        None
    };
    let ty = pad_type_from_atom(ty_word);
    let shape = pad_shape_from_atom(shape_word);
    let layers = parse_layers(sexp.find("layers"));
    Ok(PadHeader { name, ty, shape, layers })
}

/// A drawing element of a footprint, by the name of its list.
#[derive(Debug, Clone, Copy, PartialEq, Eq, Structural)]
pub enum ElementKind {
    Pad,
    FpLine,
    FpRect,
    FpCircle,
    FpArc,
    FpPoly,
    FpCurve,
    FpText,
    Model,
}

/// The element a child list name introduces.
pub open spec fn element_kind_of(name: Seq<char>) -> Option<ElementKind> {
    if name == "pad"@ {
        Some(ElementKind::Pad)
    } else if name == "fp_line"@ {
        Some(ElementKind::FpLine)
    } else if name == "fp_rect"@ {
        Some(ElementKind::FpRect)
    } else if name == "fp_circle"@ {
        Some(ElementKind::FpCircle)
    } else if name == "fp_arc"@ {
        Some(ElementKind::FpArc)
    } else if name == "fp_poly"@ {
        Some(ElementKind::FpPoly)
    } else if name == "fp_curve"@ {
        Some(ElementKind::FpCurve)
    } else if name == "fp_text"@ {
        Some(ElementKind::FpText)
    } else if name == "model"@ {
        Some(ElementKind::Model)
    } else {
        None
    }
}

pub fn element_kind(name: &str) -> (r: Option<ElementKind>)
    ensures
        r == element_kind_of(name@),
{
    if str_eq(name, "pad") {
        Some(ElementKind::Pad)
    } else if str_eq(name, "fp_line") {
        Some(ElementKind::FpLine)
    } else if str_eq(name, "fp_rect") {
        Some(ElementKind::FpRect)
    } else if str_eq(name, "fp_circle") {
        Some(ElementKind::FpCircle)
    } else if str_eq(name, "fp_arc") {
        Some(ElementKind::FpArc)
    } else if str_eq(name, "fp_poly") {
        Some(ElementKind::FpPoly)
    } else if str_eq(name, "fp_curve") {
        Some(ElementKind::FpCurve)
    } else if str_eq(name, "fp_text") {
        Some(ElementKind::FpText)
    } else if str_eq(name, "model") {
        Some(ElementKind::Model)
    } else {
        None
    }
}

} // verus!

//! Board editing rules: column labels and keys, moving groups of columns with their connections
//! and metadata, disconnecting a column, and keeping net metadata on canonical keys.

use vstd::prelude::*;
use crate::protomatrix::{opposite, ProtoSide, ProtomatrixTarget};
use crate::router::{
    column_key_to_string, connected, edge_of, holds_row, key_less, key_lt, key_string, lemma_connected_refl,
    lemma_connected_sym, lemma_connected_trans, lemma_linked_connected, lemma_linked_sym, linked, is_walk, net_columns, target_column,
    ColumnKey, Connection, JumperState, autoroute, AutorouteResult, canonical_keys, is_net_partition,
    lemma_net_partition_unique, net_pin_requests, route_entries, routed, routes, row_plan, too_many_nets_message,
    touches,
};
use crate::strmap::{entry_views, map_of, StrMap};
use crate::text::{
    all_digits, decimal, digit_char, digit_value, digits_value, is_blank, is_blank_str, is_digit, parse_i32,
    parse_usize, parsed_i32, parsed_usize, push_char, str_eq,
    push_signed_decimal, signed_decimal, trim_str, trimmed,
};

verus! {

/// Silkscreen X label of a column: `X`, then `B` for the lower side or `A` for the upper side,
/// then the 1-based column number.
pub open spec fn x_label(k: ColumnKey) -> Seq<char> {
    "X"@ + seq![
        match k.side {
            ProtoSide::Lower => 'B',
            ProtoSide::Upper => 'A',
        },
    ] + signed_decimal(k.col + 1)
}

/// Silkscreen Y label of a row: `Y` and the 1-based row number.
pub open spec fn y_label(row: i32) -> Seq<char> {
    "Y"@ + signed_decimal(row + 1)
}

/// Display label for dialogs (e.g. "XA9" for Upper col 8, "XB1" for Lower col 0). Matches
/// silkscreen X labels.
pub fn column_key_to_x_label(col: &ColumnKey) -> (r: String)
    requires
        col.col < i32::MAX,
    ensures
        r@ == x_label(*col),
{
    let mut r = String::from_str("X");
    match col.side {
        ProtoSide::Lower => push_char(&mut r, 'B'),
        ProtoSide::Upper => push_char(&mut r, 'A'),
    }
    push_signed_decimal(&mut r, col.col + 1);
    proof {
        reveal_strlit("X");
        assert(r@ =~= x_label(*col));
    }
    r
}

pub fn row_to_y_label(row: i32) -> (r: String)
    requires
        row < i32::MAX,
    ensures
        r@ == y_label(row),
{
    let mut r = String::from_str("Y");
    push_signed_decimal(&mut r, row + 1);
    proof {
        reveal_strlit("Y");
        assert(r@ =~= y_label(row));
    }
    r
}

/// The word for a side in labels.
pub open spec fn side_word(s: ProtoSide) -> Seq<char> {
    match s {
        ProtoSide::Upper => "upper"@,
        ProtoSide::Lower => "lower"@,
    }
}

/// Column and row numbers of the target fit their 1-based labels.
pub open spec fn label_fits(t: ProtomatrixTarget) -> bool {
    match t {
        ProtomatrixTarget::Pad { col, row, .. } => col < i32::MAX && row < i32::MAX,
        ProtomatrixTarget::MatrixRow { row, .. } => row < i32::MAX,
        ProtomatrixTarget::SolderJumper { col, row, .. } => col < i32::MAX && row < i32::MAX,
    }
}

/// Status-bar label of a target: `pad XA3 (Y2)`, `matrix Y2 [upper]`, `jumper XA3 Y2 [upper]`.
pub open spec fn target_label(t: ProtomatrixTarget) -> Seq<char> {
    match t {
        ProtomatrixTarget::Pad { side, col, row } => "pad "@ + x_label(ColumnKey { side, col }) + " ("@
            + y_label(row) + ")"@,
        ProtomatrixTarget::MatrixRow { side, row } => "matrix "@ + y_label(row) + " ["@ + side_word(side)
            + "]"@,
        ProtomatrixTarget::SolderJumper { side, col, row } => "jumper "@ + x_label(ColumnKey { side, col })
            + " "@ + y_label(row) + " ["@ + side_word(side) + "]"@,
    }
}

fn side_text(s: ProtoSide) -> (r: &'static str)
    ensures
        r@ == side_word(s),
{
    match s {
        ProtoSide::Upper => "upper",
        ProtoSide::Lower => "lower",
    }
}

pub fn protomatrix_target_label(t: &ProtomatrixTarget) -> (r: String)
    requires
        label_fits(*t),
    ensures
        r@ == target_label(*t),
{
    match t {
        ProtomatrixTarget::Pad { side: s, col, row } => {
            let mut r = String::from_str("pad ");
            r.append(column_key_to_x_label(&ColumnKey { side: *s, col: *col }).as_str());
            r.append(" (");
            r.append(row_to_y_label(*row).as_str());
            r.append(")");
            r
        },
        ProtomatrixTarget::MatrixRow { side: s, row } => {
            let mut r = String::from_str("matrix ");
            r.append(row_to_y_label(*row).as_str());
            r.append(" [");
            r.append(side_text(*s));
            r.append("]");
            r
        },
        ProtomatrixTarget::SolderJumper { side: s, col, row } => {
            let mut r = String::from_str("jumper ");
            r.append(column_key_to_x_label(&ColumnKey { side: *s, col: *col }).as_str());
            r.append(" ");
            r.append(row_to_y_label(*row).as_str());
            r.append(" [");
            r.append(side_text(*s));
            r.append("]");
            r
        },
    }
}

/// The column key a key text names: `L` or `U`, then a decimal `i32`.
pub open spec fn parse_column_key(s: Seq<char>) -> Option<ColumnKey> {
    if s.len() > 0 && (s[0] == 'L' || s[0] == 'U') {
        match parsed_i32(s.drop_first()) {
            Some(c) => Some(
                ColumnKey {
                    side: if s[0] == 'L' {
                        ProtoSide::Lower
                    } else {
                        ProtoSide::Upper
                    },
                    col: c,
                },
            ),
            None => None,
        }
    } else {
        None
    }
}

pub fn column_key_from_string(s: &str) -> (r: Option<ColumnKey>)
    ensures
        r == parse_column_key(s@),
{
    let n = s.unicode_len();
    if n == 0 {
        return None;
    }
    let c = s.get_char(0);
    let side = if c == 'L' {
        ProtoSide::Lower
    } else if c == 'U' {
        ProtoSide::Upper
    } else {
        return None;
    };
    let rest = s.substring_char(1, n);
    assert(rest@ =~= s@.drop_first());
    match parse_i32(rest) {
        Some(col) => Some(ColumnKey { side, col }),
        None => None,
    }
}

/// The column of a pad or solder jumper.
pub open spec fn target_column_any(t: ProtomatrixTarget) -> Option<ColumnKey> {
    match t {
        ProtomatrixTarget::Pad { side, col, .. } => Some(ColumnKey { side, col }),
        ProtomatrixTarget::SolderJumper { side, col, .. } => Some(ColumnKey { side, col }),
        ProtomatrixTarget::MatrixRow { .. } => None,
    }
}

/// Column (side, col) from a target; None for MatrixRow.
pub fn column_from_target(target: &ProtomatrixTarget) -> (r: Option<ColumnKey>)
    ensures
        r == target_column_any(*target),
{
    match target {
        ProtomatrixTarget::Pad { side, col, .. } => Some(ColumnKey { side: *side, col: *col }),
        ProtomatrixTarget::SolderJumper { side, col, .. } => Some(ColumnKey { side: *side, col: *col }),
        ProtomatrixTarget::MatrixRow { .. } => None,
    }
}

/// The net of a target: a pad's column net, a jumper's own net, a matrix row's net.
pub open spec fn target_net(t: ProtomatrixTarget, js: JumperState, m: int) -> Option<usize> {
    match t {
        ProtomatrixTarget::Pad { side, col, .. } => js.column_net(side, col, m),
        ProtomatrixTarget::SolderJumper { side, col, row } => js.net_at((side, col, row)),
        ProtomatrixTarget::MatrixRow { row, .. } => js.row_net(row),
    }
}

/// Get net index for a target (pad, solder jumper, or matrix row) if it belongs to a net.
pub fn net_index_for_target(
    target: &ProtomatrixTarget,
    jumper_state: Option<&JumperState>,
    matrix_size: i32,
) -> (r: Option<usize>)
    ensures
        r == match jumper_state {
            Some(js) => target_net(*target, *js, matrix_size as int),
            None => None,
        },
{
    let js = match jumper_state {
        Some(js) => js,
        None => return None,
    };
    match target {
        ProtomatrixTarget::Pad { side, col, .. } => js.net_for_column(*side, *col, matrix_size),
        ProtomatrixTarget::SolderJumper { side, col, row } => js.net_index(*side, *col, *row),
        ProtomatrixTarget::MatrixRow { side: _, row } => js.net_for_row(*row),
    }
}

proof fn lemma_decimal_digits(n: nat)
    ensures
        all_digits(decimal(n)),
        digits_value(decimal(n)) == n,
    decreases n,
{
    let d = decimal(n);
    if n < 10 {
        assert(d == seq![digit_char(n)]);
        assert(digit_char(n) as int == 48 + n);
        assert(d.drop_last() =~= Seq::<char>::empty());
        assert(digits_value(d) == digits_value(d.drop_last()) * 10 + digit_value(d.last()));
    } else {
        lemma_decimal_digits(n / 10);
        let c = digit_char((n % 10) as nat);
        assert(d == decimal(n / 10).push(c));
        assert(c as int == 48 + n % 10);
        assert(d.drop_last() =~= decimal(n / 10));
        assert(d.last() == c);
        assert(digits_value(d) == digits_value(d.drop_last()) * 10 + digit_value(d.last()));
        assert((n / 10) * 10 + n % 10 == n);
        assert forall|i: int| 0 <= i < d.len() implies is_digit(#[trigger] d[i]) by {
            if i < d.len() - 1 {
                assert(d[i] == decimal(n / 10)[i]);
            }
        }
    }
}

/// Reading back the key text of a column gives the column.
pub proof fn lemma_column_key_round_trip(k: ColumnKey)
    ensures
        parse_column_key(key_string(k)) == Some(k),
{
    let s = key_string(k);
    let t = s.drop_first();
    assert(t =~= signed_decimal(k.col as int));
    assert(s[0] == 'L' || s[0] == 'U');
    if k.col >= 0 {
        let d = decimal(k.col as nat);
        lemma_decimal_digits(k.col as nat);
        assert(t == d);
        assert(is_digit(t[0]));
        assert(parsed_i32(t) == Some(k.col));
    } else {
        let d = decimal((-k.col) as nat);
        lemma_decimal_digits((-k.col) as nat);
        assert(t == seq!['-'] + d);
        assert(t.drop_first() =~= d);
        assert(parsed_i32(t) == Some(k.col));
    }
}

/// Where a group move sends moved columns: (side, col) of each moved column to its destination.
pub struct ColumnRemap {
    entries: Vec<((ProtoSide, i32), ColumnKey)>,
}

impl ColumnRemap {
    #[verifier::type_invariant]
    spec fn keys_distinct(self) -> bool {
        forall|t1: int, t2: int|
            0 <= t1 < t2 < self.entries@.len() ==> #[trigger] self.entries@[t1].0 != #[trigger] self.entries@[t2].0
    }

    /// The (source, destination) pairs, in order.
    pub closed spec fn entry_seq(self) -> Seq<((ProtoSide, i32), ColumnKey)> {
        self.entries@
    }

    /// Column `k` is moved.
    pub open spec fn moves(self, k: (ProtoSide, i32)) -> bool {
        exists|t: int| 0 <= t < self.entry_seq().len() && #[trigger] self.entry_seq()[t].0 == k
    }

    /// Where column `k` goes, if it is moved.
    pub open spec fn lookup(self, k: (ProtoSide, i32)) -> Option<ColumnKey> {
        if self.moves(k) {
            Some(self.entry_seq()[choose|t: int| 0 <= t < self.entry_seq().len() && #[trigger] self.entry_seq()[t].0 == k].1)
        } else {
            None
        }
    }

    /// The remap as a lookup function.
    pub open spec fn lookup_fn(self) -> spec_fn((ProtoSide, i32)) -> Option<ColumnKey> {
        |k: (ProtoSide, i32)| self.lookup(k)
    }

    pub fn len(&self) -> (r: usize)
        ensures
            r == self.entry_seq().len(),
    {
        self.entries.len()
    }

    /// Destination of column (side, col), if it is moved.
    pub fn get(&self, side: ProtoSide, col: i32) -> (r: Option<ColumnKey>)
        ensures
            r == self.lookup((side, col)),
    {
        proof {
            use_type_invariant(self);
        }
        let mut t: usize = 0;
        while t < self.entries.len()
            invariant
                t <= self.entries@.len(),
                forall|u: int| 0 <= u < t ==> self.entries@[u].0 != (side, col),
                forall|t1: int, t2: int|
                    0 <= t1 < t2 < self.entries@.len() ==> #[trigger] self.entries@[t1].0
                        != #[trigger] self.entries@[t2].0,
            decreases self.entries.len() - t,
        {
            let e = self.entries[t];
            if e.0.0 == side && e.0.1 == col {
                proof {
                    let k = (side, col);
                    let kk = self.entries@[t as int].0;
                    assert(kk.0 == side && kk.1 == col);
                    assert(kk == k);
                    assert(self.entry_seq()[t as int].0 == k);
                    let c = choose|u: int| 0 <= u < self.entry_seq().len() && #[trigger] self.entry_seq()[u].0 == k;
                    if c != t {
                        if c < t {
                            assert(self.entries@[c].0 != self.entries@[t as int].0);
                        } else {
                            assert(self.entries@[t as int].0 != self.entries@[c].0);
                        }
                    }
                }
                return Some(e.1);
            }
            t = t + 1;
        }
        None
    }

    /// Whether (side, col) is the destination of some moved column.
    pub fn has_dest(&self, side: ProtoSide, col: i32) -> (r: bool)
        ensures
            r == is_dest_of(self.lookup_fn(), (side, col)),
    {
        proof {
            use_type_invariant(self);
            self.lemma_dest_entries(side, col);
        }
        let mut t: usize = 0;
        while t < self.entries.len()
            invariant
                t <= self.entries@.len(),
                forall|u: int|
                    0 <= u < t ==> !((#[trigger] self.entries@[u]).1.side == side && self.entries@[u].1.col
                        == col),
            decreases self.entries.len() - t,
        {
            let d = self.entries[t].1;
            if d.side == side && d.col == col {
                proof {
                    use_type_invariant(self);
                    self.lemma_dest_entries(side, col);
                    assert(self.entry_seq()[t as int] == self.entries@[t as int]);
                }
                return true;
            }
            t = t + 1;
        }
        false
    }

    proof fn lemma_dest_entries(self, side: ProtoSide, col: i32)
        requires
            forall|t1: int, t2: int|
                0 <= t1 < t2 < self.entry_seq().len() ==> #[trigger] self.entry_seq()[t1].0
                    != #[trigger] self.entry_seq()[t2].0,
        ensures
            is_dest_of(self.lookup_fn(), (side, col)) <==> exists|t: int|
                0 <= t < self.entry_seq().len() && (#[trigger] self.entry_seq()[t]).1.side == side
                    && self.entry_seq()[t].1.col == col,
    {
        let e = self.entry_seq();
        let d = ColumnKey { side, col };
        if is_dest_of(self.lookup_fn(), (side, col)) {
            let (s2, c2) = choose|s2: ProtoSide, c2: i32| #[trigger] self.lookup_fn()((s2, c2)) == Some(d);
            assert(self.lookup((s2, c2)) == Some(d));
            let t = choose|t: int| 0 <= t < e.len() && #[trigger] e[t].0 == (s2, c2);
            assert(e[t].1 == d);
        }
        if exists|t: int| 0 <= t < e.len() && (#[trigger] e[t]).1.side == side && e[t].1.col == col {
            let t = choose|t: int| 0 <= t < e.len() && (#[trigger] e[t]).1.side == side && e[t].1.col == col;
            let k = e[t].0;
            assert(self.moves(k));
            let c = choose|u: int| 0 <= u < e.len() && #[trigger] e[u].0 == k;
            if c != t {
                if c < t {
                    assert(e[c].0 != e[t].0);
                } else {
                    assert(e[t].0 != e[c].0);
                }
            }
            assert(e[t].1 == d);
            assert(self.lookup_fn()((k.0, k.1)) == Some(d));
        }
    }

    /// The remap as (side, col) → (side, col) pairs, for previews.
    pub fn to_side_col(&self) -> (r: Vec<((ProtoSide, i32), (ProtoSide, i32))>)
        ensures
            r@.len() == self.entry_seq().len(),
            forall|t: int|
                0 <= t < r@.len() ==> #[trigger] r@[t] == (self.entry_seq()[t].0, (
                    self.entry_seq()[t].1.side,
                    self.entry_seq()[t].1.col,
                )),
    {
        let mut r: Vec<((ProtoSide, i32), (ProtoSide, i32))> = Vec::new();
        let mut t: usize = 0;
        while t < self.entries.len()
            invariant
                t <= self.entries@.len(),
                r@.len() == t,
                forall|u: int|
                    0 <= u < t ==> #[trigger] r@[u] == (self.entries@[u].0, (
                        self.entries@[u].1.side,
                        self.entries@[u].1.col,
                    )),
            decreases self.entries.len() - t,
        {
            let e = self.entries[t];
            r.push((e.0, (e.1.side, e.1.col)));
            t = t + 1;
        }
        r
    }
}

/// The remap as a map from (side, col) pairs to (side, col) pairs, for previews.
pub fn column_remap_to_side_col(m: &ColumnRemap) -> (r: Vec<((ProtoSide, i32), (ProtoSide, i32))>)
    ensures
        r@.len() == m.entry_seq().len(),
        forall|t: int|
            0 <= t < r@.len() ==> #[trigger] r@[t] == (m.entry_seq()[t].0, (
                m.entry_seq()[t].1.side,
                m.entry_seq()[t].1.col,
            )),
{
    m.to_side_col()
}

/// Column `k` is where some moved column goes.
pub open spec fn is_dest_of(lk: spec_fn((ProtoSide, i32)) -> Option<ColumnKey>, k: (ProtoSide, i32)) -> bool {
    exists|s: ProtoSide, c: i32| #[trigger] lk((s, c)) == Some(ColumnKey { side: k.0, col: k.1 })
}

/// Some selected column is on `side` at column `c`.
pub open spec fn sel_has(sel: Seq<ColumnKey>, side: ProtoSide, c: int) -> bool {
    exists|i: int| 0 <= i < sel.len() && (#[trigger] sel[i]).side == side && sel[i].col == c
}

/// Some selected column is on `side`.
pub open spec fn side_present(sel: Seq<ColumnKey>, side: ProtoSide) -> bool {
    exists|i: int| 0 <= i < sel.len() && (#[trigger] sel[i]).side == side
}

/// `lo` and `hi` are the smallest and largest selected columns on `side`.
pub open spec fn side_bounds(sel: Seq<ColumnKey>, side: ProtoSide, lo: int, hi: int) -> bool {
    &&& sel_has(sel, side, lo)
    &&& sel_has(sel, side, hi)
    &&& forall|i: int| 0 <= i < sel.len() && (#[trigger] sel[i]).side == side ==> lo <= sel[i].col <= hi
}

/// Smallest selected column on `side`.
pub open spec fn side_lo(sel: Seq<ColumnKey>, side: ProtoSide) -> int {
    (choose|lo: int, hi: int| side_bounds(sel, side, lo, hi)).0
}

/// Largest selected column on `side`.
pub open spec fn side_hi(sel: Seq<ColumnKey>, side: ProtoSide) -> int {
    (choose|lo: int, hi: int| side_bounds(sel, side, lo, hi)).1
}

/// The selection on `side`, if any, fits from `target_start` within the columns
/// `0..proto_cols`: its last destination is at most `proto_cols - 1`.
pub open spec fn side_fits(sel: Seq<ColumnKey>, side: ProtoSide, target_start: int, proto_cols: int) -> bool {
    side_present(sel, side) ==> target_start >= 0 && target_start + (side_hi(sel, side) - side_lo(
        sel,
        side,
    )) <= proto_cols - 1
}

/// Destination of column `c` on `side` in a group spanning `lo..=hi` placed from `target_start`:
/// same gaps; flip moves it to the other side, rotation mirrors the order and also changes side.
pub open spec fn move_dest(
    side: ProtoSide,
    c: int,
    lo: int,
    hi: int,
    target_start: int,
    rotate_180: bool,
    flip_vertical: bool,
) -> ColumnKey {
    if !rotate_180 && !flip_vertical {
        ColumnKey { side, col: (target_start + (c - lo)) as i32 }
    } else if !rotate_180 && flip_vertical {
        ColumnKey { side: opposite(side), col: (target_start + (c - lo)) as i32 }
    } else if rotate_180 && !flip_vertical {
        ColumnKey { side: opposite(side), col: (target_start + (hi - c)) as i32 }
    } else {
        ColumnKey { side, col: (target_start + (hi - c)) as i32 }
    }
}

/// Destination of selected column (side, c).
pub open spec fn planned_dest(
    sel: Seq<ColumnKey>,
    side: ProtoSide,
    c: int,
    target_start: int,
    rotate_180: bool,
    flip_vertical: bool,
) -> ColumnKey {
    move_dest(side, c, side_lo(sel, side), side_hi(sel, side), target_start, rotate_180, flip_vertical)
}

/// Where the move sends each column: selected columns to their planned destinations.
pub open spec fn sel_lookup(sel: Seq<ColumnKey>, ts: int, rotate_180: bool, flip_vertical: bool) -> spec_fn(
    (ProtoSide, i32),
) -> Option<ColumnKey> {
    |k: (ProtoSide, i32)|
        if sel_has(sel, k.0, k.1 as int) {
            Some(planned_dest(sel, k.0, k.1 as int, ts, rotate_180, flip_vertical))
        } else {
            None
        }
}

/// The move is possible: something is selected, each side's group fits, and no two selected
/// columns land on the same column.
pub open spec fn remap_ok(
    sel: Seq<ColumnKey>,
    target_start: int,
    proto_cols: int,
    rotate_180: bool,
    flip_vertical: bool,
) -> bool {
    &&& sel.len() > 0
    &&& side_fits(sel, ProtoSide::Lower, target_start, proto_cols)
    &&& side_fits(sel, ProtoSide::Upper, target_start, proto_cols)
    &&& forall|i: int, j: int|
        0 <= i < sel.len() && 0 <= j < sel.len() && ((#[trigger] sel[i]).side != (#[trigger] sel[j]).side
            || sel[i].col != sel[j].col) ==> planned_dest(
            sel,
            sel[i].side,
            sel[i].col as int,
            target_start,
            rotate_180,
            flip_vertical,
        ) != planned_dest(sel, sel[j].side, sel[j].col as int, target_start, rotate_180, flip_vertical)
}

/// The selected columns on each side are close enough that their spans, and the spans placed
/// from a nonnegative `target_start`, fit in `i32`.
pub open spec fn spans_fit(sel: Seq<ColumnKey>, target_start: int) -> bool {
    forall|i: int, j: int|
        0 <= i < sel.len() && 0 <= j < sel.len() && (#[trigger] sel[i]).side == (#[trigger] sel[j]).side
            ==> sel[j].col - sel[i].col <= i32::MAX && (target_start >= 0 ==> target_start + (sel[j].col
            - sel[i].col) <= i32::MAX)
}

/// Whether a group move of `sel` placed from `target_start` stays within `i32`: the test that
/// callers of [`build_column_group_remap`] and [`apply_column_group_move`] make first.
pub fn group_spans_fit(sel: &Vec<ColumnKey>, target_start: i32) -> (r: bool)
    ensures
        r == spans_fit(sel@, target_start as int),
{
    let n = sel.len();
    let mut i: usize = 0;
    while i < n
        invariant
            n == sel@.len(),
            0 <= i <= n,
            forall|a: int, b: int|
                0 <= a < i && 0 <= b < n && (#[trigger] sel@[a]).side == (#[trigger] sel@[b]).side
                    ==> sel@[b].col - sel@[a].col <= i32::MAX && (target_start >= 0 ==> target_start
                    + (sel@[b].col - sel@[a].col) <= i32::MAX),
        decreases n - i,
    {
        let mut j: usize = 0;
        while j < n
            invariant
                n == sel@.len(),
                0 <= i < n,
                0 <= j <= n,
                forall|a: int, b: int|
                    0 <= a < i && 0 <= b < n && (#[trigger] sel@[a]).side == (#[trigger] sel@[b]).side
                        ==> sel@[b].col - sel@[a].col <= i32::MAX && (target_start >= 0 ==> target_start
                        + (sel@[b].col - sel@[a].col) <= i32::MAX),
                forall|b: int|
                    0 <= b < j && (#[trigger] sel@[b]).side == sel@[i as int].side
                        ==> sel@[b].col - sel@[i as int].col <= i32::MAX && (target_start >= 0
                        ==> target_start + (sel@[b].col - sel@[i as int].col) <= i32::MAX),
            decreases n - j,
        {
            let a = sel[i];
            let b = sel[j];
            if a.side == b.side {
                let span: i64 = b.col as i64 - a.col as i64;
                if span > 2147483647i64 {
                    assert(sel@[i as int].side == sel@[j as int].side);
                    return false;
                }
                if target_start >= 0 && target_start as i64 + span > 2147483647i64 {
                    assert(sel@[i as int].side == sel@[j as int].side);
                    return false;
                }
            }
            j = j + 1;
        }
        i = i + 1;
    }
    true
}

proof fn lemma_side_bounds_unique(sel: Seq<ColumnKey>, side: ProtoSide, lo: int, hi: int)
    requires
        side_bounds(sel, side, lo, hi),
    ensures
        side_lo(sel, side) == lo,
        side_hi(sel, side) == hi,
{
    let (lo2, hi2) = choose|lo2: int, hi2: int| side_bounds(sel, side, lo2, hi2);
    let i = choose|i: int| 0 <= i < sel.len() && (#[trigger] sel[i]).side == side && sel[i].col == lo2;
    let j = choose|j: int| 0 <= j < sel.len() && (#[trigger] sel[j]).side == side && sel[j].col == hi2;
    let i1 = choose|i: int| 0 <= i < sel.len() && (#[trigger] sel[i]).side == side && sel[i].col == lo;
    let j1 = choose|j: int| 0 <= j < sel.len() && (#[trigger] sel[j]).side == side && sel[j].col == hi;
}

/// The distinct selected columns on `side`, with their smallest and largest.
fn side_columns(sel: &Vec<ColumnKey>, side: ProtoSide) -> (r: (Vec<i32>, i32, i32))
    ensures
        forall|a: int, b: int| 0 <= a < b < r.0@.len() ==> #[trigger] r.0@[a] != #[trigger] r.0@[b],
        forall|c: i32| r.0@.contains(c) <==> sel_has(sel@, side, c as int),
        r.0@.len() > 0 <==> side_present(sel@, side),
        r.0@.len() > 0 ==> side_bounds(sel@, side, r.1 as int, r.2 as int),
{
    let mut cols: Vec<i32> = Vec::new();
    let mut lo: i32 = 0;
    let mut hi: i32 = 0;
    let mut t: usize = 0;
    while t < sel.len()
        invariant
            t <= sel@.len(),
            forall|a: int, b: int| 0 <= a < b < cols@.len() ==> #[trigger] cols@[a] != #[trigger] cols@[b],
            forall|c: i32| cols@.contains(c) <==> sel_has(sel@.take(t as int), side, c as int),
            cols@.len() > 0 <==> side_present(sel@.take(t as int), side),
            cols@.len() > 0 ==> side_bounds(sel@.take(t as int), side, lo as int, hi as int),
        decreases sel.len() - t,
    {
        let k = sel[t];
        let ghost s0 = sel@.take(t as int);
        let ghost s1 = sel@.take(t + 1);
        proof {
            assert(s1 =~= s0.push(k));
            assert forall|c: int| sel_has(s1, side, c) <==> sel_has(s0, side, c) || (k.side == side && k.col == c) by {
                if sel_has(s1, side, c) {
                    let i = choose|i: int| 0 <= i < s1.len() && (#[trigger] s1[i]).side == side && s1[i].col == c;
                    if i < s0.len() {
                        assert(s0[i] == s1[i]);
                    }
                }
                if sel_has(s0, side, c) {
                    let i = choose|i: int| 0 <= i < s0.len() && (#[trigger] s0[i]).side == side && s0[i].col == c;
                    assert(s1[i] == s0[i]);
                }
                if k.side == side && k.col == c {
                    assert(s1[t as int] == k);
                }
            }
            assert(side_present(s1, side) <==> side_present(s0, side) || k.side == side) by {
                if side_present(s1, side) {
                    let i = choose|i: int| 0 <= i < s1.len() && (#[trigger] s1[i]).side == side;
                    if i < s0.len() {
                        assert(s0[i] == s1[i]);
                    }
                }
                if side_present(s0, side) {
                    let i = choose|i: int| 0 <= i < s0.len() && (#[trigger] s0[i]).side == side;
                    assert(s1[i] == s0[i]);
                }
                if k.side == side {
                    assert(s1[t as int] == k);
                }
            }
        }
        if k.side == side {
            let present = holds_row(&cols, k.col);
            let was_empty = cols.len() == 0;
            let ghost lo0 = lo;
            let ghost hi0 = hi;
            if !present {
                let ghost c0 = cols@;
                cols.push(k.col);
                proof {
                    assert forall|a: int, b: int| 0 <= a < b < cols@.len() implies #[trigger] cols@[a] != #[trigger] cols@[b] by {
                        if b == c0.len() {
                            assert(c0.contains(c0[a]));
                        } else {
                            assert(c0[a] != c0[b]);
                        }
                    }
                    assert forall|c: i32| cols@.contains(c) <==> sel_has(s1, side, c as int) by {
                        if cols@.contains(c) {
                            let a = choose|a: int| 0 <= a < cols@.len() && cols@[a] == c;
                            if a < c0.len() {
                                assert(c0.contains(c));
                            }
                        }
                        if c0.contains(c) {
                            let a = choose|a: int| 0 <= a < c0.len() && c0[a] == c;
                            assert(cols@[a] == c);
                        }
                        if c == k.col {
                            assert(cols@[c0.len() as int] == c);
                        }
                    }
                }
            }
            if was_empty {
                lo = k.col;
                hi = k.col;
            } else {
                if k.col < lo {
                    lo = k.col;
                }
                if k.col > hi {
                    hi = k.col;
                }
            }
            proof {
                assert(s1[t as int] == k);
                assert forall|i: int| 0 <= i < s1.len() && (#[trigger] s1[i]).side == side implies lo <= s1[i].col <= hi by {
                    if i < s0.len() {
                        assert(s0[i] == s1[i]);
                    }
                }
                if !was_empty {
                    let i = choose|i: int| 0 <= i < s0.len() && (#[trigger] s0[i]).side == side && s0[i].col == lo0;
                    assert(s1[i] == s0[i]);
                    let j = choose|j: int| 0 <= j < s0.len() && (#[trigger] s0[j]).side == side && s0[j].col == hi0;
                    assert(s1[j] == s0[j]);
                }
                assert(sel_has(s1, side, lo as int));
                assert(sel_has(s1, side, hi as int));
            }
        } else {
            proof {
                if cols@.len() > 0 {
                    assert forall|i: int| 0 <= i < s1.len() && (#[trigger] s1[i]).side == side implies lo <= s1[i].col <= hi by {
                        if i < s0.len() {
                            assert(s0[i] == s1[i]);
                        }
                    }
                    assert(sel_has(s1, side, lo as int));
                    assert(sel_has(s1, side, hi as int));
                }
            }
        }
        t = t + 1;
    }
    proof {
        assert(sel@.take(sel@.len() as int) =~= sel@);
    }
    (cols, lo, hi)
}

/// The move entry of column `c` of `side`.
pub open spec fn move_entry(
    side: ProtoSide,
    c: i32,
    lo: int,
    hi: int,
    target_start: int,
    rotate_180: bool,
    flip_vertical: bool,
) -> ((ProtoSide, i32), ColumnKey) {
    ((side, c), move_dest(side, c as int, lo, hi, target_start, rotate_180, flip_vertical))
}

/// Appends the moves of the columns `cols` of `side`, spanning `lo..=hi`.
fn push_moves(
    entries: &mut Vec<((ProtoSide, i32), ColumnKey)>,
    cols: &Vec<i32>,
    side: ProtoSide,
    lo: i32,
    hi: i32,
    target_start: i32,
    rotate_180: bool,
    flip_vertical: bool,
)
    requires
        0 <= target_start,
        target_start + (hi - lo) <= i32::MAX,
        forall|a: int| 0 <= a < cols@.len() ==> lo <= #[trigger] cols@[a] <= hi,
    ensures
        final(entries)@ == old(entries)@ + cols@.map_values(
            |c: i32| move_entry(side, c, lo as int, hi as int, target_start as int, rotate_180, flip_vertical),
        ),
{
    let ghost e0 = entries@;
    let mut a: usize = 0;
    while a < cols.len()
        invariant
            0 <= target_start,
            target_start + (hi - lo) <= i32::MAX,
            forall|b: int| 0 <= b < cols@.len() ==> lo <= #[trigger] cols@[b] <= hi,
            a <= cols@.len(),
            entries@ == e0 + cols@.take(a as int).map_values(
                |c: i32| move_entry(side, c, lo as int, hi as int, target_start as int, rotate_180, flip_vertical),
            ),
        decreases cols.len() - a,
    {
        let c = cols[a];
        assert(lo <= cols@[a as int] <= hi);
        let other = side.other();
        let dest = if !rotate_180 && !flip_vertical {
            ColumnKey { side, col: target_start + (c - lo) }
        } else if !rotate_180 && flip_vertical {
            ColumnKey { side: other, col: target_start + (c - lo) }
        } else if rotate_180 && !flip_vertical {
            ColumnKey { side: other, col: target_start + (hi - c) }
        } else {
            ColumnKey { side, col: target_start + (hi - c) }
        };
        entries.push(((side, c), dest));
        proof {
            assert(cols@.take(a + 1) =~= cols@.take(a as int).push(c));
            assert(entries@ =~= e0 + cols@.take(a + 1).map_values(
                |c: i32| move_entry(side, c, lo as int, hi as int, target_start as int, rotate_180, flip_vertical),
            ));
        }
        a = a + 1;
    }
    proof {
        assert(cols@.take(cols@.len() as int) =~= cols@);
    }
}

/// The moves of one side hold each selected column of that side once, with its planned
/// destination.
pub open spec fn side_moves_spec(
    sel: Seq<ColumnKey>,
    side: ProtoSide,
    ts: int,
    rotate_180: bool,
    flip_vertical: bool,
    v: Seq<((ProtoSide, i32), ColumnKey)>,
) -> bool {
    &&& forall|t: int|
        0 <= t < v.len() ==> (#[trigger] v[t]).0.0 == side && sel_has(sel, side, v[t].0.1 as int) && v[t].1
            == planned_dest(sel, side, v[t].0.1 as int, ts, rotate_180, flip_vertical)
    &&& forall|c: i32| sel_has(sel, side, c as int) ==> exists|t: int| 0 <= t < v.len() && #[trigger] v[t].0 == (side, c)
    &&& forall|t1: int, t2: int| 0 <= t1 < t2 < v.len() ==> #[trigger] v[t1].0 != #[trigger] v[t2].0
}

/// The moves of the selected columns of one side, or `None` when they do not fit.
fn side_moves(
    selection: &Vec<ColumnKey>,
    side: ProtoSide,
    target_start: i32,
    proto_cols: i32,
    rotate_180: bool,
    flip_vertical: bool,
) -> (r: Option<Vec<((ProtoSide, i32), ColumnKey)>>)
    requires
        spans_fit(selection@, target_start as int),
    ensures
        match r {
            Some(v) => side_fits(selection@, side, target_start as int, proto_cols as int) && side_moves_spec(
                selection@,
                side,
                target_start as int,
                rotate_180,
                flip_vertical,
                v@,
            ),
            None => !side_fits(selection@, side, target_start as int, proto_cols as int),
        },
{
    let ghost sel = selection@;
    let ghost ts = target_start as int;
    let (cols, lo, hi) = side_columns(selection, side);
    let mut v: Vec<((ProtoSide, i32), ColumnKey)> = Vec::new();
    if cols.len() > 0 {
        proof {
            lemma_side_bounds_unique(sel, side, lo as int, hi as int);
            lemma_span_fits(sel, side, lo as int, hi as int, ts);
            lemma_cols_in_bounds(sel, side, cols@, lo as int, hi as int);
        }
        if target_start < 0 || target_start + (hi - lo) >= proto_cols {
            return None;
        }
        push_moves(&mut v, &cols, side, lo, hi, target_start, rotate_180, flip_vertical);
        proof {
            assert forall|t: int| 0 <= t < v@.len() implies (#[trigger] v@[t]).0.0 == side && sel_has(
                sel,
                side,
                v@[t].0.1 as int,
            ) && v@[t].1 == planned_dest(sel, side, v@[t].0.1 as int, ts, rotate_180, flip_vertical) by {
                assert(cols@.contains(cols@[t]));
            }
            assert forall|c: i32| sel_has(sel, side, c as int) implies exists|t: int|
                0 <= t < v@.len() && #[trigger] v@[t].0 == (side, c) by {
                assert(cols@.contains(c));
                let a = choose|a: int| 0 <= a < cols@.len() && cols@[a] == c;
                assert(v@[a].0 == (side, c));
            }
            assert forall|t1: int, t2: int| 0 <= t1 < t2 < v@.len() implies #[trigger] v@[t1].0
                != #[trigger] v@[t2].0 by {
                assert(cols@[t1] != cols@[t2]);
            }
        }
    }
    Some(v)
}

/// Whether no two entries share a destination.
fn dests_distinct(e: &Vec<((ProtoSide, i32), ColumnKey)>) -> (r: bool)
    ensures
        r == forall|t1: int, t2: int| 0 <= t1 < t2 < e@.len() ==> #[trigger] e@[t1].1 != #[trigger] e@[t2].1,
{
    let mut i: usize = 0;
    while i < e.len()
        invariant
            i <= e@.len(),
            forall|t1: int, t2: int| 0 <= t1 < i && t1 < t2 < e@.len() ==> #[trigger] e@[t1].1 != #[trigger] e@[t2].1,
        decreases e.len() - i,
    {
        let mut j: usize = i + 1;
        while j < e.len()
            invariant
                i < e@.len(),
                i + 1 <= j <= e@.len(),
                forall|t2: int| i < t2 < j ==> e@[i as int].1 != #[trigger] e@[t2].1,
            decreases e.len() - j,
        {
            if e[i].1 == e[j].1 {
                return false;
            }
            j = j + 1;
        }
        i = i + 1;
    }
    true
}

/// Where a group move puts a selected column `c` of `side`: a flip alone, or a rotation alone,
/// sends it to the other side, and both together or neither keep it on its side. Without
/// rotation the group's lowest column lands on `target_start` and the others keep their offsets
/// from it; with rotation the group's highest column lands on `target_start` and the order is
/// mirrored.
pub proof fn lemma_move_placement(
    sel: Seq<ColumnKey>,
    side: ProtoSide,
    c: int,
    target_start: int,
    proto_cols: int,
    rotate_180: bool,
    flip_vertical: bool,
)
    requires
        sel_has(sel, side, c),
    ensures
        planned_dest(sel, side, c, target_start, rotate_180, flip_vertical).side == (if rotate_180 != flip_vertical {
            opposite(side)
        } else {
            side
        }),
        side_fits(sel, side, target_start, proto_cols) && proto_cols <= i32::MAX ==> planned_dest(
            sel,
            side,
            c,
            target_start,
            rotate_180,
            flip_vertical,
        ).col == (if rotate_180 {
            target_start + (side_hi(sel, side) - c)
        } else {
            target_start + (c - side_lo(sel, side))
        }),
{
    let i = choose|i: int| 0 <= i < sel.len() && (#[trigger] sel[i]).side == side && sel[i].col == c;
    lemma_side_bounds_exist(sel, side, i);
    assert(side_bounds(sel, side, side_lo(sel, side), side_hi(sel, side)));
    assert(side_lo(sel, side) <= c <= side_hi(sel, side));
}

/// Map each selected column on a side to new indices starting at `target_start` for the
/// **minimum** column on that side, preserving **relative column spacing** (gaps between selected
/// columns). `rotate_180` / `flip_vertical` mirror placement (R / F) until the move is confirmed.
pub fn build_column_group_remap(
    selection: &Vec<ColumnKey>,
    target_start: i32,
    proto_cols: i32,
    rotate_180: bool,
    flip_vertical: bool,
) -> (r: Option<ColumnRemap>)
    requires
        spans_fit(selection@, target_start as int),
    ensures
        match r {
            Some(m) => remap_ok(selection@, target_start as int, proto_cols as int, rotate_180, flip_vertical)
                && m.lookup_fn() == sel_lookup(selection@, target_start as int, rotate_180, flip_vertical)
                && (forall|side: ProtoSide, c: i32| #[trigger] m.moves((side, c)) <==> sel_has(selection@, side, c as int))
                && (forall|side: ProtoSide, c: i32|
                #[trigger] m.moves((side, c)) ==> m.lookup((side, c)) == Some(
                    planned_dest(selection@, side, c as int, target_start as int, rotate_180, flip_vertical),
                ))
                && (forall|side: ProtoSide, c: i32|
                #[trigger] m.moves((side, c)) ==> 0 <= planned_dest(
                    selection@,
                    side,
                    c as int,
                    target_start as int,
                    rotate_180,
                    flip_vertical,
                ).col < proto_cols)
                && (forall|side: ProtoSide, c: i32|
                #[trigger] m.moves((side, c)) ==> (m.lookup((side, c)) matches Some(d) && d.side == (if rotate_180
                    != flip_vertical {
                    opposite(side)
                } else {
                    side
                }))),
            None => !remap_ok(selection@, target_start as int, proto_cols as int, rotate_180, flip_vertical),
        },
{
    let ghost sel = selection@;
    let ghost ts = target_start as int;
    let mut entries = match side_moves(selection, ProtoSide::Lower, target_start, proto_cols, rotate_180, flip_vertical) {
        Some(v) => v,
        None => return None,
    };
    let mut upper = match side_moves(selection, ProtoSide::Upper, target_start, proto_cols, rotate_180, flip_vertical) {
        Some(v) => v,
        None => return None,
    };
    let ghost lower_e = entries@;
    let ghost upper_e = upper@;
    entries.append(&mut upper);
    proof {
        lemma_join_moves(sel, ts, rotate_180, flip_vertical, lower_e, upper_e, entries@);
    }
    if entries.len() == 0 {
        proof {
            if sel.len() > 0 {
                assert(sel_has(sel, sel[0].side, sel[0].col as int));
                let t = choose|t: int| 0 <= t < entries@.len() && #[trigger] entries@[t].0 == (sel[0].side, sel[0].col);
            }
        }
        return None;
    }
    if !dests_distinct(&entries) {
        proof {
            let (i, j) = choose|i: int, j: int| 0 <= i < j < entries@.len() && !(entries@[i].1 != entries@[j].1);
            lemma_dest_clash(sel, ts, proto_cols as int, rotate_180, flip_vertical, entries@, i, j);
        }
        return None;
    }
    let m = ColumnRemap { entries };
    proof {
        assert(m.entry_seq() == entries@);
        lemma_remap_built(sel, ts, proto_cols as int, rotate_180, flip_vertical, entries@);
        lemma_remap_view(m, sel, ts, rotate_180, flip_vertical);
        assert forall|side: ProtoSide, c: i32| #[trigger] m.moves((side, c)) implies 0 <= planned_dest(
            sel,
            side,
            c as int,
            ts,
            rotate_180,
            flip_vertical,
        ).col < proto_cols by {
            lemma_move_keeps_spacing(sel, ts, proto_cols as int, rotate_180, flip_vertical, side, c as int, c as int);
        }
        assert forall|side: ProtoSide, c: i32| #[trigger] m.moves((side, c)) implies (m.lookup((side, c)) matches Some(
            d,
        ) && d.side == (if rotate_180 != flip_vertical {
            opposite(side)
        } else {
            side
        })) by {
            lemma_move_placement(sel, side, c as int, ts, proto_cols as int, rotate_180, flip_vertical);
        }
    }
    Some(m)
}

/// The moves of both sides together: each entry is a selected column with its planned
/// destination, every selected column has an entry, and no column has two.
proof fn lemma_join_moves(
    sel: Seq<ColumnKey>,
    ts: int,
    rotate_180: bool,
    flip_vertical: bool,
    l: Seq<((ProtoSide, i32), ColumnKey)>,
    u: Seq<((ProtoSide, i32), ColumnKey)>,
    e: Seq<((ProtoSide, i32), ColumnKey)>,
)
    requires
        side_moves_spec(sel, ProtoSide::Lower, ts, rotate_180, flip_vertical, l),
        side_moves_spec(sel, ProtoSide::Upper, ts, rotate_180, flip_vertical, u),
        e == l + u,
    ensures
        forall|t: int|
            0 <= t < e.len() ==> sel_has(sel, (#[trigger] e[t]).0.0, e[t].0.1 as int) && e[t].1 == planned_dest(
                sel,
                e[t].0.0,
                e[t].0.1 as int,
                ts,
                rotate_180,
                flip_vertical,
            ),
        forall|side: ProtoSide, c: i32|
            sel_has(sel, side, c as int) ==> exists|t: int| 0 <= t < e.len() && #[trigger] e[t].0 == (side, c),
        forall|t1: int, t2: int| 0 <= t1 < t2 < e.len() ==> #[trigger] e[t1].0 != #[trigger] e[t2].0,
{
    let nl = l.len() as int;
    assert forall|t: int| 0 <= t < e.len() implies sel_has(sel, (#[trigger] e[t]).0.0, e[t].0.1 as int) && e[t].1
        == planned_dest(sel, e[t].0.0, e[t].0.1 as int, ts, rotate_180, flip_vertical) by {
        if t < nl {
            assert(e[t] == l[t]);
        } else {
            assert(e[t] == u[t - nl]);
        }
    }
    assert forall|side: ProtoSide, c: i32| sel_has(sel, side, c as int) implies exists|t: int|
        0 <= t < e.len() && #[trigger] e[t].0 == (side, c) by {
        if side == ProtoSide::Lower {
            let t = choose|t: int| 0 <= t < l.len() && #[trigger] l[t].0 == (side, c);
            assert(e[t] == l[t]);
        } else {
            let t = choose|t: int| 0 <= t < u.len() && #[trigger] u[t].0 == (side, c);
            assert(e[nl + t] == u[t]);
        }
    }
    assert forall|t1: int, t2: int| 0 <= t1 < t2 < e.len() implies #[trigger] e[t1].0 != #[trigger] e[t2].0 by {
        if t2 < nl {
            assert(e[t1] == l[t1] && e[t2] == l[t2]);
        } else if t1 >= nl {
            assert(e[t1] == u[t1 - nl] && e[t2] == u[t2 - nl]);
        } else {
            assert(e[t1] == l[t1] && e[t2] == u[t2 - nl]);
        }
    }
}

proof fn lemma_span_fits(sel: Seq<ColumnKey>, side: ProtoSide, lo: int, hi: int, ts: int)
    requires
        spans_fit(sel, ts),
        side_bounds(sel, side, lo, hi),
    ensures
        hi - lo <= i32::MAX,
        ts >= 0 ==> ts + (hi - lo) <= i32::MAX,
{
    let i = choose|i: int| 0 <= i < sel.len() && (#[trigger] sel[i]).side == side && sel[i].col == lo;
    let j = choose|j: int| 0 <= j < sel.len() && (#[trigger] sel[j]).side == side && sel[j].col == hi;
    assert(sel[i].side == sel[j].side);
}

proof fn lemma_cols_in_bounds(sel: Seq<ColumnKey>, side: ProtoSide, cols: Seq<i32>, lo: int, hi: int)
    requires
        side_bounds(sel, side, lo, hi),
        forall|c: i32| cols.contains(c) <==> sel_has(sel, side, c as int),
    ensures
        forall|a: int| 0 <= a < cols.len() ==> lo <= #[trigger] cols[a] <= hi,
{
    assert forall|a: int| 0 <= a < cols.len() implies lo <= #[trigger] cols[a] <= hi by {
        assert(cols.contains(cols[a]));
        let i = choose|i: int| 0 <= i < sel.len() && (#[trigger] sel[i]).side == side && sel[i].col == cols[a] as int;
    }
}

/// Two move entries with one destination make the move impossible.
proof fn lemma_dest_clash(
    sel: Seq<ColumnKey>,
    ts: int,
    proto_cols: int,
    rotate_180: bool,
    flip_vertical: bool,
    e: Seq<((ProtoSide, i32), ColumnKey)>,
    i: int,
    j: int,
)
    requires
        0 <= i < j < e.len(),
        e[i].1 == e[j].1,
        forall|t: int|
            0 <= t < e.len() ==> sel_has(sel, (#[trigger] e[t]).0.0, e[t].0.1 as int) && e[t].1 == planned_dest(
                sel,
                e[t].0.0,
                e[t].0.1 as int,
                ts,
                rotate_180,
                flip_vertical,
            ),
        forall|t1: int, t2: int| 0 <= t1 < t2 < e.len() ==> #[trigger] e[t1].0 != #[trigger] e[t2].0,
    ensures
        !remap_ok(sel, ts, proto_cols, rotate_180, flip_vertical),
{
    assert(sel_has(sel, e[i].0.0, e[i].0.1 as int));
    assert(sel_has(sel, e[j].0.0, e[j].0.1 as int));
    let a = choose|a: int| 0 <= a < sel.len() && (#[trigger] sel[a]).side == e[i].0.0 && sel[a].col == e[i].0.1 as int;
    let b = choose|b: int| 0 <= b < sel.len() && (#[trigger] sel[b]).side == e[j].0.0 && sel[b].col == e[j].0.1 as int;
    assert(e[i].0 != e[j].0);
    assert(sel[a].side != sel[b].side || sel[a].col != sel[b].col);
}

proof fn lemma_remap_built(
    sel: Seq<ColumnKey>,
    ts: int,
    proto_cols: int,
    rotate_180: bool,
    flip_vertical: bool,
    e: Seq<((ProtoSide, i32), ColumnKey)>,
)
    requires
        e.len() > 0,
        side_fits(sel, ProtoSide::Lower, ts, proto_cols),
        side_fits(sel, ProtoSide::Upper, ts, proto_cols),
        forall|t: int|
            0 <= t < e.len() ==> sel_has(sel, (#[trigger] e[t]).0.0, e[t].0.1 as int) && e[t].1 == planned_dest(
                sel,
                e[t].0.0,
                e[t].0.1 as int,
                ts,
                rotate_180,
                flip_vertical,
            ),
        forall|side: ProtoSide, c: i32|
            sel_has(sel, side, c as int) ==> exists|t: int| 0 <= t < e.len() && #[trigger] e[t].0 == (side, c),
        forall|t1: int, t2: int| 0 <= t1 < t2 < e.len() ==> #[trigger] e[t1].1 != #[trigger] e[t2].1,
    ensures
        remap_ok(sel, ts, proto_cols, rotate_180, flip_vertical),
{
    assert(sel.len() > 0) by {
        let t = 0int;
        assert(sel_has(sel, e[t].0.0, e[t].0.1 as int));
    }
    assert forall|a: int, b: int|
        0 <= a < sel.len() && 0 <= b < sel.len() && ((#[trigger] sel[a]).side != (#[trigger] sel[b]).side
            || sel[a].col != sel[b].col) implies planned_dest(sel, sel[a].side, sel[a].col as int, ts, rotate_180, flip_vertical)
        != planned_dest(sel, sel[b].side, sel[b].col as int, ts, rotate_180, flip_vertical) by {
        assert(sel_has(sel, sel[a].side, sel[a].col as int));
        assert(sel_has(sel, sel[b].side, sel[b].col as int));
        let ta = choose|t: int| 0 <= t < e.len() && #[trigger] e[t].0 == (sel[a].side, sel[a].col);
        let tb = choose|t: int| 0 <= t < e.len() && #[trigger] e[t].0 == (sel[b].side, sel[b].col);
        assert(ta != tb);
        if ta < tb {
            assert(e[ta].1 != e[tb].1);
        } else {
            assert(e[tb].1 != e[ta].1);
        }
    }
}

/// The endpoint `t` stops a move: it sits on a column that does not move but that a moved
/// column would land on.
pub open spec fn blocks(lk: spec_fn((ProtoSide, i32)) -> Option<ColumnKey>, t: ProtomatrixTarget) -> bool {
    match target_column_any(t) {
        Some(k) => lk((k.side, k.col)) is None && is_dest_of(lk, (k.side, k.col)),
        None => false,
    }
}

/// Some connection has an endpoint that stops the move.
pub open spec fn move_blocked(conns: Seq<Connection>, lk: spec_fn((ProtoSide, i32)) -> Option<ColumnKey>) -> bool {
    exists|i: int| 0 <= i < conns.len() && (blocks(lk, (#[trigger] conns[i]).a) || blocks(lk, conns[i].b))
}

/// The error for a move onto a column of another net.
pub open spec fn overlap_message() -> Seq<char> {
    "Target overlaps another net (no merge). Pick a different column."@
}

/// The error for a move that does not fit.
pub open spec fn no_room_message() -> Seq<char> {
    "Not enough room for that many columns in that direction."@
}

fn endpoint_blocks(t: &ProtomatrixTarget, col_remap: &ColumnRemap) -> (r: bool)
    ensures
        r == blocks(col_remap.lookup_fn(), *t),
{
    match column_from_target(t) {
        Some(k) => {
            match col_remap.get(k.side, k.col) {
                Some(_) => false,
                None => col_remap.has_dest(k.side, k.col),
            }
        },
        None => false,
    }
}

/// A move may not land moved columns on columns used by connections that stay.
pub fn validate_column_group_move(connections: &[Connection], col_remap: &ColumnRemap) -> (r: Result<(), String>)
    ensures
        match r {
            Ok(()) => !move_blocked(connections@, col_remap.lookup_fn()),
            Err(e) => move_blocked(connections@, col_remap.lookup_fn()) && e@ == overlap_message(),
        },
{
    let mut i: usize = 0;
    while i < connections.len()
        invariant
            i <= connections@.len(),
            forall|j: int|
                0 <= j < i ==> !(blocks(col_remap.lookup_fn(), (#[trigger] connections@[j]).a) || blocks(
                    col_remap.lookup_fn(),
                    connections@[j].b,
                )),
        decreases connections.len() - i,
    {
        let c = connections[i];
        if endpoint_blocks(&c.a, col_remap) || endpoint_blocks(&c.b, col_remap) {
            assert(connections@[i as int] == c);
            return Err(String::from_str("Target overlaps another net (no merge). Pick a different column."));
        }
        i = i + 1;
    }
    Ok(())
}

/// A pad or jumper on a moved column goes to the column's destination, same row.
pub open spec fn remapped_target(
    t: ProtomatrixTarget,
    lk: spec_fn((ProtoSide, i32)) -> Option<ColumnKey>,
) -> ProtomatrixTarget {
    match t {
        ProtomatrixTarget::Pad { side, col, row } => match lk((side, col)) {
            Some(d) => ProtomatrixTarget::Pad { side: d.side, col: d.col, row },
            None => t,
        },
        ProtomatrixTarget::SolderJumper { side, col, row } => match lk((side, col)) {
            Some(d) => ProtomatrixTarget::SolderJumper { side: d.side, col: d.col, row },
            None => t,
        },
        ProtomatrixTarget::MatrixRow { .. } => t,
    }
}

pub fn remap_pad_endpoint(t: &ProtomatrixTarget, col_remap: &ColumnRemap) -> (r: ProtomatrixTarget)
    ensures
        r == remapped_target(*t, col_remap.lookup_fn()),
{
    match t {
        ProtomatrixTarget::Pad { side, col, row } => {
            if let Some(dest) = col_remap.get(*side, *col) {
                ProtomatrixTarget::Pad { side: dest.side, col: dest.col, row: *row }
            } else {
                *t
            }
        },
        ProtomatrixTarget::SolderJumper { side, col, row } => {
            if let Some(dest) = col_remap.get(*side, *col) {
                ProtomatrixTarget::SolderJumper { side: dest.side, col: dest.col, row: *row }
            } else {
                *t
            }
        },
        _ => *t,
    }
}

/// A metadata key after a move: a column key of a moved column becomes its destination's key;
/// any other key stays.
pub open spec fn remap_key(k: Seq<char>, lk: spec_fn((ProtoSide, i32)) -> Option<ColumnKey>) -> Seq<char> {
    match parse_column_key(k) {
        Some(ck) => match lk((ck.side, ck.col)) {
            Some(d) => key_string(d),
            None => k,
        },
        None => k,
    }
}

/// Metadata after renaming keys in order: each entry goes to its new key, merged with `f` into
/// the value already there.
pub open spec fn remap_fold<V>(
    e: Seq<(Seq<char>, V)>,
    lk: spec_fn((ProtoSide, i32)) -> Option<ColumnKey>,
    f: spec_fn(V, V) -> V,
) -> Map<Seq<char>, V>
    decreases e.len(),
{
    if e.len() == 0 {
        Map::empty()
    } else {
        let acc = remap_fold(e.drop_last(), lk, f);
        let nk = remap_key(e.last().0, lk);
        if acc.contains_key(nk) {
            acc.insert(nk, f(acc[nk], e.last().1))
        } else {
            acc.insert(nk, e.last().1)
        }
    }
}

fn remapped_key(k: String, col_remap: &ColumnRemap) -> (r: String)
    ensures
        r@ == remap_key(k@, col_remap.lookup_fn()),
{
    match column_key_from_string(k.as_str()) {
        Some(ck) => match col_remap.get(ck.side, ck.col) {
            Some(dest) => column_key_to_string(&dest),
            None => k,
        },
        None => k,
    }
}

/// Renames metadata keys of moved columns to their destinations' keys, merging with `merge`
/// (whose result `f` describes) when two entries land on one key.
pub(crate) fn remap_metadata_keys<V, F: Fn(V, V) -> V>(
    map: &mut StrMap<V>,
    col_remap: &ColumnRemap,
    merge: F,
    Ghost(f): Ghost<spec_fn(V, V) -> V>,
)
    requires
        forall|a: V, b: V| #[trigger] merge.requires((a, b)),
        forall|a: V, b: V, r: V| merge.ensures((a, b), r) ==> r == f(a, b),
    ensures
        final(map)@ == remap_fold(old(map).entry_seq(), col_remap.lookup_fn(), f),
{
    let ghost lk = col_remap.lookup_fn();
    let mut old_map: StrMap<V> = StrMap::new();
    std::mem::swap(map, &mut old_map);
    let ghost e = old_map.entry_seq();
    let mut entries = old_map.into_entries();
    let total = entries.len();
    let ghost n = total as nat;
    let mut out: StrMap<V> = StrMap::new();
    let mut i: usize = 0;
    while entries.len() > 0
        invariant
            forall|a: V, b: V| #[trigger] merge.requires((a, b)),
            forall|a: V, b: V, r: V| merge.ensures((a, b), r) ==> r == f(a, b),
            lk == col_remap.lookup_fn(),
            n == e.len(),
            n == total,
            i + entries@.len() == n,
            entry_views(entries@) == e.skip(i as int),
            out@ == remap_fold(e.take(i as int), lk, f),
        decreases entries.len(),
    {
        let ghost rest = entries@;
        let (k, v) = entries.remove(0);
        proof {
            assert(e.skip(i as int)[0] == (k@, v)) by {
                assert(entry_views(rest)[0] == (k@, v));
            }
            assert forall|j: int| 0 <= j < entries@.len() implies #[trigger] entry_views(entries@)[j] == e.skip(
                i + 1,
            )[j] by {
                assert(entries@[j] == rest[j + 1]);
                assert(entry_views(rest)[j + 1] == e.skip(i as int)[j + 1]);
            }
            assert(entry_views(entries@) =~= e.skip(i + 1));
            assert(e.take(i + 1).drop_last() =~= e.take(i as int));
            assert(e.take(i + 1).last() == e[i as int]);
        }
        let nk = remapped_key(k, col_remap);
        match out.remove(nk.as_str()) {
            None => {
                out.insert(nk, v);
            },
            Some(prev) => {
                let merged = merge(prev, v);
                out.insert(nk, merged);
            },
        }
        proof {
            assert(out@ =~= remap_fold(e.take(i + 1), lk, f));
        }
        i = i + 1;
    }
    proof {
        assert(e.take(n as int) =~= e);
    }
    *map = out;
}

/// The non-blank of two texts, the first when both are.
pub open spec fn prefer_non_blank(a: String, b: String) -> String {
    if is_blank(a@) {
        b
    } else {
        a
    }
}

/// The first of two values.
pub open spec fn keep_first<V>(a: V, b: V) -> V {
    a
}

/// Of two texts for one key, the first unless it is blank.
fn text_merge(a: String, b: String) -> (r: String)
    ensures
        r == prefer_non_blank(a, b),
{
    if is_blank_str(a.as_str()) {
        b
    } else {
        a
    }
}

/// Of two colors for one key, the first.
fn first_color(a: [u8; 4], b: [u8; 4]) -> (r: [u8; 4])
    ensures
        r == keep_first(a, b),
{
    a
}

/// Of two row pins for one key, the first.
fn first_row(a: i32, b: i32) -> (r: i32)
    ensures
        r == keep_first(a, b),
{
    a
}

/// What a group move does to the connections: every endpoint on a moved column moves with it.
pub open spec fn moved_connections(
    conns: Seq<Connection>,
    lk: spec_fn((ProtoSide, i32)) -> Option<ColumnKey>,
) -> Seq<Connection> {
    conns.map_values(|c: Connection| Connection { a: remapped_target(c.a, lk), b: remapped_target(c.b, lk) })
}

/// Moves the selected columns to `target_start` (see `build_column_group_remap`), with their
/// connections, net names, colors, row pins and column annotations. Fails, changing nothing,
/// when the group does not fit or would land on a column used by another net.
pub fn apply_column_group_move(
    connections: &mut Vec<Connection>,
    net_names: &mut StrMap<String>,
    net_colors: &mut StrMap<[u8; 4]>,
    net_row_pins: &mut StrMap<i32>,
    column_annotations: &mut StrMap<String>,
    selection: &Vec<ColumnKey>,
    target_start: i32,
    proto_cols: i32,
    rotate_180: bool,
    flip_vertical: bool,
) -> (r: Result<(), String>)
    requires
        spans_fit(selection@, target_start as int),
    ensures
        ({
            let lk = sel_lookup(selection@, target_start as int, rotate_180, flip_vertical);
            let ok = remap_ok(selection@, target_start as int, proto_cols as int, rotate_180, flip_vertical);
            match r {
                Ok(()) => ok && !move_blocked(old(connections)@, lk) && final(connections)@ == moved_connections(
                    old(connections)@,
                    lk,
                ) && final(net_names)@ == remap_fold(old(net_names).entry_seq(), lk, |a: String, b: String| prefer_non_blank(a, b))
                    && final(net_colors)@ == remap_fold(old(net_colors).entry_seq(), lk, |a: [u8; 4], b: [u8; 4]| keep_first(a, b))
                    && final(net_row_pins)@ == remap_fold(old(net_row_pins).entry_seq(), lk, |a: i32, b: i32| keep_first(a, b))
                    && final(column_annotations)@ == remap_fold(
                    old(column_annotations).entry_seq(),
                    lk,
                    |a: String, b: String| prefer_non_blank(a, b),
                ),
                Err(e) => (if ok {
                    move_blocked(old(connections)@, lk) && e@ == overlap_message()
                } else {
                    e@ == no_room_message()
                }) && final(connections)@ == old(connections)@ && final(net_names)@ == old(net_names)@
                    && final(net_colors)@ == old(net_colors)@ && final(net_row_pins)@ == old(net_row_pins)@
                    && final(column_annotations)@ == old(column_annotations)@,
            }
        }),
{
    let col_remap = match build_column_group_remap(selection, target_start, proto_cols, rotate_180, flip_vertical) {
        Some(m) => m,
        None => return Err(String::from_str("Not enough room for that many columns in that direction.")),
    };
    let ghost lk = col_remap.lookup_fn();
    match validate_column_group_move(connections.as_slice(), &col_remap) {
        Ok(()) => {},
        Err(e) => return Err(e),
    }
    let ghost c0 = connections@;
    let mut i: usize = 0;
    while i < connections.len()
        invariant
            lk == col_remap.lookup_fn(),
            connections@.len() == c0.len(),
            i <= c0.len(),
            forall|j: int|
                0 <= j < i ==> #[trigger] connections@[j] == (Connection {
                    a: remapped_target(c0[j].a, lk),
                    b: remapped_target(c0[j].b, lk),
                }),
            forall|j: int| i <= j < c0.len() ==> #[trigger] connections@[j] == c0[j],
        decreases connections.len() - i,
    {
        let c = connections[i];
        let moved = Connection { a: remap_pad_endpoint(&c.a, &col_remap), b: remap_pad_endpoint(&c.b, &col_remap) };
        connections.set(i, moved);
        i = i + 1;
    }
    proof {
        assert(connections@ =~= moved_connections(c0, lk));
    }
    remap_metadata_keys(net_names, &col_remap, text_merge, Ghost(|a: String, b: String| prefer_non_blank(a, b)));
    remap_metadata_keys(net_colors, &col_remap, first_color, Ghost(|a: [u8; 4], b: [u8; 4]| keep_first(a, b)));
    remap_metadata_keys(net_row_pins, &col_remap, first_row, Ghost(|a: i32, b: i32| keep_first(a, b)));
    remap_metadata_keys(
        column_annotations,
        &col_remap,
        text_merge,
        Ghost(|a: String, b: String| prefer_non_blank(a, b)),
    );
    Ok(())
}

proof fn lemma_remap_view(m: ColumnRemap, sel: Seq<ColumnKey>, ts: int, rotate_180: bool, flip_vertical: bool)
    requires
        forall|t: int|
            0 <= t < m.entry_seq().len() ==> sel_has(sel, (#[trigger] m.entry_seq()[t]).0.0, m.entry_seq()[t].0.1 as int)
                && m.entry_seq()[t].1 == planned_dest(
                sel,
                m.entry_seq()[t].0.0,
                m.entry_seq()[t].0.1 as int,
                ts,
                rotate_180,
                flip_vertical,
            ),
        forall|side: ProtoSide, c: i32|
            sel_has(sel, side, c as int) ==> exists|t: int|
                0 <= t < m.entry_seq().len() && #[trigger] m.entry_seq()[t].0 == (side, c),
    ensures
        m.lookup_fn() == sel_lookup(sel, ts, rotate_180, flip_vertical),
        forall|side: ProtoSide, c: i32| #[trigger] m.moves((side, c)) <==> sel_has(sel, side, c as int),
        forall|side: ProtoSide, c: i32|
            #[trigger] m.moves((side, c)) ==> m.lookup((side, c)) == Some(
                planned_dest(sel, side, c as int, ts, rotate_180, flip_vertical),
            ),
{
    let e = m.entry_seq();
    assert forall|side: ProtoSide, c: i32| #[trigger] m.moves((side, c)) implies m.lookup((side, c)) == Some(
        planned_dest(sel, side, c as int, ts, rotate_180, flip_vertical),
    ) by {
        let t = choose|t: int| 0 <= t < e.len() && #[trigger] e[t].0 == (side, c);
        assert(e[t].0 == (side, c));
    }
    assert forall|side: ProtoSide, c: i32| #[trigger] m.moves((side, c)) <==> sel_has(sel, side, c as int) by {
        if sel_has(sel, side, c as int) {
            let t = choose|t: int| 0 <= t < e.len() && #[trigger] e[t].0 == (side, c);
        }
        if m.moves((side, c)) {
            let t = choose|t: int| 0 <= t < e.len() && #[trigger] e[t].0 == (side, c);
            assert(sel_has(sel, e[t].0.0, e[t].0.1 as int));
        }
    }
    assert forall|k: (ProtoSide, i32)| #[trigger] m.lookup_fn()(k) == sel_lookup(sel, ts, rotate_180, flip_vertical)(k) by {
        assert(m.moves((k.0, k.1)) <==> sel_has(sel, k.0, k.1 as int));
        if m.moves((k.0, k.1)) {
            assert(m.lookup((k.0, k.1)) == Some(planned_dest(sel, k.0, k.1 as int, ts, rotate_180, flip_vertical)));
        }
    }
    assert(m.lookup_fn() =~= sel_lookup(sel, ts, rotate_180, flip_vertical));
}

/// `row` clamped into `0..=m - 1`.
pub open spec fn clamp_row(row: i32, m: int) -> i32 {
    if row < 0 {
        0
    } else if row > m - 1 {
        (m - 1) as i32
    } else {
        row
    }
}

/// Moves the value of key `from` to key `to`, unless `to` already has one; with `clamp`, a row
/// pin is clamped into `0..m` on the way.
pub open spec fn move_entry_value<V>(mp: Map<Seq<char>, V>, from: Seq<char>, to: Seq<char>) -> Map<Seq<char>, V> {
    if !mp.contains_key(to) && mp.contains_key(from) {
        mp.remove(from).insert(to, mp[from])
    } else {
        mp
    }
}

/// Like `move_entry_value`, clamping the moved row pin into `0..m`.
pub open spec fn move_pin(mp: Map<Seq<char>, i32>, from: Seq<char>, to: Seq<char>, m: int) -> Map<Seq<char>, i32> {
    if !mp.contains_key(to) && mp.contains_key(from) {
        mp.remove(from).insert(to, clamp_row(mp[from], m))
    } else {
        mp
    }
}

/// The smallest column of `cols` other than `col`.
pub open spec fn is_min_other(cols: Seq<ColumnKey>, col: ColumnKey, k: ColumnKey) -> bool {
    cols.contains(k) && k != col && forall|c: ColumnKey| #[trigger] cols.contains(c) && c != col ==> c == k || key_lt(k, c)
}

/// Where a disconnected column's metadata goes: the smallest other column of its net.
pub open spec fn disconnect_heir(js: JumperState, col: ColumnKey, m: int) -> Option<ColumnKey> {
    match js.column_net(col.side, col.col, m) {
        Some(ni) => if exists|k: ColumnKey| #[trigger] is_min_other(net_columns(js.entries(), ni), col, k) {
            Some(choose|k: ColumnKey| #[trigger] is_min_other(net_columns(js.entries(), ni), col, k))
        } else {
            None
        },
        None => None,
    }
}

/// The smallest column of `cols` other than `col`.
fn min_other_column(cols: &Vec<ColumnKey>, col: ColumnKey) -> (r: Option<ColumnKey>)
    ensures
        match r {
            Some(k) => is_min_other(cols@, col, k),
            None => !exists|k: ColumnKey| #[trigger] is_min_other(cols@, col, k),
        },
{
    let mut best: Option<ColumnKey> = None;
    let mut i: usize = 0;
    while i < cols.len()
        invariant
            i <= cols@.len(),
            match best {
                Some(k) => cols@.take(i as int).contains(k) && k != col && forall|c: ColumnKey|
                    #[trigger] cols@.take(i as int).contains(c) && c != col ==> c == k || key_lt(k, c),
                None => forall|c: ColumnKey| #[trigger] cols@.take(i as int).contains(c) ==> c == col,
            },
        decreases cols.len() - i,
    {
        let c = cols[i];
        let ghost pre = cols@.take(i as int);
        proof {
            let s1 = cols@.take(i + 1);
            assert(s1 =~= pre.push(c));
            assert forall|q: ColumnKey| #[trigger] s1.contains(q) <==> pre.contains(q) || q == c by {
                if s1.contains(q) {
                    let j = choose|j: int| 0 <= j < s1.len() && s1[j] == q;
                    if j < i {
                        assert(pre[j] == q);
                    }
                }
                if pre.contains(q) {
                    let j = choose|j: int| 0 <= j < pre.len() && pre[j] == q;
                    assert(s1[j] == q);
                }
                if q == c {
                    assert(s1[i as int] == q);
                }
            }
        }
        if c != col {
            match best {
                Some(b) => {
                    if key_less(c, b) {
                        best = Some(c);
                    }
                },
                None => {
                    best = Some(c);
                },
            }
        }
        i = i + 1;
    }
    proof {
        assert(cols@.take(cols@.len() as int) =~= cols@);
        if best is None {
            assert forall|k: ColumnKey| !(#[trigger] is_min_other(cols@, col, k)) by {}
        }
    }
    best
}

fn clamp_to_rows(row: i32, matrix_size: i32) -> (r: i32)
    requires
        matrix_size >= 1,
    ensures
        r == clamp_row(row, matrix_size as int),
{
    if row < 0 {
        0
    } else if row > matrix_size - 1 {
        matrix_size - 1
    } else {
        row
    }
}

/// Moves the value of `from` to `to` unless `to` has one.
fn move_value<V>(mp: &mut StrMap<V>, from: &str, to: &String)
    ensures
        final(mp)@ == move_entry_value(old(mp)@, from@, to@),
{
    if !mp.contains_key(to.as_str()) {
        if let Some(v) = mp.remove(from) {
            mp.insert(to.clone(), v);
        }
    }
}

/// When disconnecting a column, migrate its metadata (name, color, row pin) to the remaining
/// net's canonical key. Otherwise the disconnected column's key becomes orphaned and the
/// remaining net loses its color/name.
pub fn migrate_disconnected_column_metadata(
    col: ColumnKey,
    js: &JumperState,
    matrix_size: i32,
    net_names: &mut StrMap<String>,
    net_colors: &mut StrMap<[u8; 4]>,
    net_row_pins: &mut StrMap<i32>,
)
    ensures
        match disconnect_heir(*js, col, matrix_size as int) {
            Some(h) => final(net_names)@ == move_entry_value(old(net_names)@, key_string(col), key_string(h))
                && final(net_colors)@ == move_entry_value(old(net_colors)@, key_string(col), key_string(h))
                && final(net_row_pins)@ == move_pin(
                old(net_row_pins)@,
                key_string(col),
                key_string(h),
                matrix_size as int,
            ),
            None => final(net_names)@ == old(net_names)@ && final(net_colors)@ == old(net_colors)@
                && final(net_row_pins)@ == old(net_row_pins)@,
        },
{
    let net_idx = match js.net_for_column(col.side, col.col, matrix_size) {
        Some(ni) => ni,
        None => return,
    };
    proof {
        let row = choose|row: int| #[trigger] js.lowest_closed_row(col.side, col.col, matrix_size as int, row);
        assert(matrix_size >= 1);
    }
    let columns = js.columns_for_net(net_idx);
    let new_canonical = match min_other_column(&columns, col) {
        Some(k) => k,
        None => return,
    };
    proof {
        let h = choose|k: ColumnKey| #[trigger] is_min_other(columns@, col, k);
        if h != new_canonical {
            assert(columns@.contains(h) && h != col);
            assert(h == new_canonical || key_lt(new_canonical, h));
            assert(new_canonical == h || key_lt(h, new_canonical));
        }
    }
    let col_key = column_key_to_string(&col);
    let new_key = column_key_to_string(&new_canonical);
    move_value(net_names, col_key.as_str(), &new_key);
    move_value(net_colors, col_key.as_str(), &new_key);
    if !net_row_pins.contains_key(new_key.as_str()) {
        if let Some(row) = net_row_pins.remove(col_key.as_str()) {
            let clamped = clamp_to_rows(row, matrix_size);
            net_row_pins.insert(new_key, clamped);
        }
    }
}

/// The neighbor pad a connection offers when one end is a pad of column `col`: the pad at the
/// other end, with its column, when that is another column.
pub open spec fn neighbor_of(c: Connection, col: ColumnKey) -> Option<(ColumnKey, ProtomatrixTarget)> {
    if target_column(c.a) == Some(col) {
        match target_column(c.b) {
            Some(k) => if k != col {
                Some((k, c.b))
            } else {
                None
            },
            None => None,
        }
    } else if target_column(c.b) == Some(col) {
        match target_column(c.a) {
            Some(k) => Some((k, c.a)),
            None => None,
        }
    } else {
        None
    }
}

/// Some pair of `pads` has column `k`.
pub open spec fn has_pad_column(pads: Seq<(ColumnKey, ProtomatrixTarget)>, k: ColumnKey) -> bool {
    exists|i: int| 0 <= i < pads.len() && (#[trigger] pads[i]).0 == k
}

/// The neighbor pads of column `col`, one per neighbor column, the first found for each, in
/// order of first appearance.
pub open spec fn neighbor_pads(conns: Seq<Connection>, col: ColumnKey) -> Seq<(ColumnKey, ProtomatrixTarget)>
    decreases conns.len(),
{
    if conns.len() == 0 {
        Seq::empty()
    } else {
        let acc = neighbor_pads(conns.drop_last(), col);
        match neighbor_of(conns.last(), col) {
            Some(p) => if has_pad_column(acc, p.0) {
                acc
            } else {
                acc.push(p)
            },
            None => acc,
        }
    }
}

/// A pad end of the connection is on column `col`.
pub open spec fn touches_column(c: Connection, col: ColumnKey) -> bool {
    target_column(c.a) == Some(col) || target_column(c.b) == Some(col)
}

/// Connections from the first pad to each other pad.
pub open spec fn star_connections(pads: Seq<(ColumnKey, ProtomatrixTarget)>) -> Seq<Connection> {
    if pads.len() >= 2 {
        Seq::new((pads.len() - 1) as nat, |i: int| Connection { a: pads[0].1, b: pads[i + 1].1 })
    } else {
        Seq::empty()
    }
}

/// The connections after disconnecting `col`: those not touching it, then a star joining its
/// former neighbors.
pub open spec fn disconnected(conns: Seq<Connection>, col: ColumnKey) -> Seq<Connection> {
    conns.filter(|c: Connection| !touches_column(c, col)) + star_connections(neighbor_pads(conns, col))
}

fn find_pad_column(pads: &Vec<(ColumnKey, ProtomatrixTarget)>, k: ColumnKey) -> (r: bool)
    ensures
        r == has_pad_column(pads@, k),
{
    let mut i: usize = 0;
    while i < pads.len()
        invariant
            i <= pads@.len(),
            forall|j: int| 0 <= j < i ==> (#[trigger] pads@[j]).0 != k,
        decreases pads.len() - i,
    {
        if pads[i].0 == k {
            return true;
        }
        i = i + 1;
    }
    false
}

/// Disconnect the given column from its net. Removes connections involving that column,
/// and adds new connections between the remaining columns so the rest of the net stays connected.
pub fn disconnect_column(connections: &mut Vec<Connection>, col: ColumnKey)
    ensures
        final(connections)@ == disconnected(old(connections)@, col),
        forall|t: int|
            0 <= t < final(connections)@.len() ==> !touches_column(#[trigger] final(connections)@[t], col),
{
    let ghost c0 = connections@;
    let mut pads: Vec<(ColumnKey, ProtomatrixTarget)> = Vec::new();
    let mut kept: Vec<Connection> = Vec::new();
    let mut i: usize = 0;
    while i < connections.len()
        invariant
            connections@ == c0,
            i <= c0.len(),
            pads@ == neighbor_pads(c0.take(i as int), col),
            kept@ == c0.take(i as int).filter(|c: Connection| !touches_column(c, col)),
        decreases connections.len() - i,
    {
        let c = connections[i];
        proof {
            assert(c0.take(i + 1).drop_last() =~= c0.take(i as int));
            assert(c0.take(i + 1).last() == c);
            reveal(Seq::filter);
        }
        let ka = ColumnKey::from_pad(&c.a);
        let kb = ColumnKey::from_pad(&c.b);
        let cand: Option<(ColumnKey, ProtomatrixTarget)> = if ka == Some(col) {
            match kb {
                Some(k) => if k != col {
                    Some((k, c.b))
                } else {
                    None
                },
                None => None,
            }
        } else if kb == Some(col) {
            match ka {
                Some(k) => Some((k, c.a)),
                None => None,
            }
        } else {
            None
        };
        match cand {
            Some(p) => {
                if !find_pad_column(&pads, p.0) {
                    pads.push(p);
                }
            },
            None => {},
        }
        if ka != Some(col) && kb != Some(col) {
            kept.push(c);
        }
        i = i + 1;
    }
    proof {
        assert(c0.take(c0.len() as int) =~= c0);
    }
    let ghost star_start = kept@.len();
    if pads.len() >= 2 {
        let first = pads[0].1;
        let mut j: usize = 1;
        while j < pads.len()
            invariant
                1 <= j <= pads@.len(),
                pads@.len() >= 2,
                first == pads@[0].1,
                star_start <= kept@.len(),
                kept@.len() == star_start + (j - 1),
                kept@.take(star_start as int) == c0.filter(|c: Connection| !touches_column(c, col)),
                forall|t: int|
                    0 <= t < j - 1 ==> #[trigger] kept@[star_start + t] == (Connection { a: pads@[0].1, b: pads@[t + 1].1 }),
            decreases pads.len() - j,
        {
            let ghost k0 = kept@;
            kept.push(Connection::new(first, pads[j].1));
            proof {
                assert(kept@.take(star_start as int) =~= k0.take(star_start as int));
            }
            j = j + 1;
        }
        proof {
            let f = c0.filter(|c: Connection| !touches_column(c, col));
            let st = star_connections(pads@);
            assert(f.len() == star_start);
            assert(st.len() == pads@.len() - 1);
            assert forall|x: int| 0 <= x < kept@.len() implies kept@[x] == (f + st)[x] by {
                if x < star_start {
                    assert(kept@.take(star_start as int)[x] == kept@[x]);
                } else {
                    let t = x - star_start;
                    assert(kept@[star_start + t] == (Connection { a: pads@[0].1, b: pads@[t + 1].1 }));
                }
            }
            assert(kept@ =~= disconnected(c0, col));
        }
    } else {
        proof {
            assert(kept@ =~= disconnected(c0, col));
        }
    }
    proof {
        lemma_disconnect_keeps_net(c0, col);
    }
    *connections = kept;
}

/// The keys of entries, in order.
pub open spec fn entry_keys<V>(e: Seq<(Seq<char>, V)>) -> Seq<Seq<char>> {
    e.map_values(|x: (Seq<char>, V)| x.0)
}

/// An index key (`"0"`, `"1"`, ...) of an older file names net `idx`: its value moves to the
/// net's canonical key.
pub open spec fn index_key_step<V>(mp: Map<Seq<char>, V>, key: Seq<char>, canon: Seq<ColumnKey>) -> Map<
    Seq<char>,
    V,
> {
    match parsed_usize(key) {
        Some(idx) => if (idx as int) < canon.len() && mp.contains_key(key) {
            mp.remove(key).insert(key_string(canon[idx as int]), mp[key])
        } else {
            mp
        },
        None => mp,
    }
}

/// The index-key step applied for each of `keys` in order.
pub open spec fn index_key_phase<V>(mp: Map<Seq<char>, V>, keys: Seq<Seq<char>>, canon: Seq<ColumnKey>) -> Map<
    Seq<char>,
    V,
>
    decreases keys.len(),
{
    if keys.len() == 0 {
        mp
    } else {
        index_key_step(index_key_phase(mp, keys.drop_last(), canon), keys.last(), canon)
    }
}

/// The value of the first column of `cols` that has one moves to key `to`.
pub open spec fn adopt_first<V>(mp: Map<Seq<char>, V>, to: Seq<char>, cols: Seq<ColumnKey>) -> Map<Seq<char>, V>
    decreases cols.len(),
{
    if cols.len() == 0 {
        mp
    } else if mp.contains_key(key_string(cols[0])) {
        mp.remove(key_string(cols[0])).insert(to, mp[key_string(cols[0])])
    } else {
        adopt_first(mp, to, cols.drop_first())
    }
}

/// Some column of `cols` has a value.
pub open spec fn has_adoptable<V>(mp: Map<Seq<char>, V>, cols: Seq<ColumnKey>) -> bool
    decreases cols.len(),
{
    cols.len() > 0 && (mp.contains_key(key_string(cols[0])) || has_adoptable(mp, cols.drop_first()))
}

/// Like `adopt_first`, clamping the adopted row pin into `0..m`.
pub open spec fn adopt_first_pin(mp: Map<Seq<char>, i32>, to: Seq<char>, cols: Seq<ColumnKey>, m: int) -> Map<
    Seq<char>,
    i32,
>
    decreases cols.len(),
{
    if cols.len() == 0 {
        mp
    } else if mp.contains_key(key_string(cols[0])) {
        mp.remove(key_string(cols[0])).insert(to, clamp_row(mp[key_string(cols[0])], m))
    } else {
        adopt_first_pin(mp, to, cols.drop_first(), m)
    }
}

/// A net whose canonical key has no value takes the value of one of its columns.
pub open spec fn adopt<V>(mp: Map<Seq<char>, V>, to: Seq<char>, cols: Seq<ColumnKey>) -> Map<Seq<char>, V> {
    if mp.contains_key(to) {
        mp
    } else {
        adopt_first(mp, to, cols)
    }
}

/// Adoption for the first `n` nets in order.
pub open spec fn adopt_nets<V>(
    mp: Map<Seq<char>, V>,
    canon: Seq<ColumnKey>,
    e: Seq<((ProtoSide, i32, i32), usize)>,
    n: nat,
) -> Map<Seq<char>, V>
    decreases n,
{
    if n == 0 {
        mp
    } else {
        let prev = adopt_nets(mp, canon, e, (n - 1) as nat);
        adopt(prev, key_string(canon[n - 1]), net_columns(e, (n - 1) as usize))
    }
}

/// Row pin adoption for the first `n` nets in order.
pub open spec fn adopt_pin_nets(
    mp: Map<Seq<char>, i32>,
    canon: Seq<ColumnKey>,
    e: Seq<((ProtoSide, i32, i32), usize)>,
    m: int,
    n: nat,
) -> Map<Seq<char>, i32>
    decreases n,
{
    if n == 0 {
        mp
    } else {
        let prev = adopt_pin_nets(mp, canon, e, m, (n - 1) as nat);
        let to = key_string(canon[n - 1]);
        if prev.contains_key(to) {
            prev
        } else {
            adopt_first_pin(prev, to, net_columns(e, (n - 1) as usize), m)
        }
    }
}

/// Some of the first `n` nets adopted a row pin.
pub open spec fn pins_adopted(
    mp: Map<Seq<char>, i32>,
    canon: Seq<ColumnKey>,
    e: Seq<((ProtoSide, i32, i32), usize)>,
    m: int,
    n: nat,
) -> bool
    decreases n,
{
    n > 0 && (pins_adopted(mp, canon, e, m, (n - 1) as nat) || {
        let prev = adopt_pin_nets(mp, canon, e, m, (n - 1) as nat);
        !prev.contains_key(key_string(canon[n - 1])) && has_adoptable(prev, net_columns(e, (n - 1) as usize))
    })
}

/// `k` is the key text of one of the canonical columns.
pub open spec fn is_canonical_key(canon: Seq<ColumnKey>, k: Seq<char>) -> bool {
    exists|i: int| 0 <= i < canon.len() && #[trigger] key_string(canon[i]) == k
}

/// The row pins kept: those on a canonical key, with a row in `0..m`.
pub open spec fn canonical_pins(mp: Map<Seq<char>, i32>, canon: Seq<ColumnKey>, m: int) -> Map<Seq<char>, i32> {
    Map::new(
        |k: Seq<char>|
            mp.contains_key(k) && is_canonical_key(canon, k) && 0 <= mp[k] < m,
        |k: Seq<char>| mp[k],
    )
}

fn migrate_index_keys(net_names: &mut StrMap<String>, canon: &Vec<ColumnKey>)
    ensures
        final(net_names)@ == index_key_phase(old(net_names)@, entry_keys(old(net_names).entry_seq()), canon@),
{
    let keys = net_names.key_list();
    let ghost ks = entry_keys(old(net_names).entry_seq());
    assert(keys@.len() == ks.len());
    let mut i: usize = 0;
    while i < keys.len()
        invariant
            i <= keys@.len(),
            keys@.len() == ks.len(),
            forall|t: int| 0 <= t < keys@.len() ==> #[trigger] keys@[t]@ == ks[t],
            net_names@ == index_key_phase(old(net_names)@, ks.take(i as int), canon@),
        decreases keys.len() - i,
    {
        proof {
            assert(ks.take(i + 1).drop_last() =~= ks.take(i as int));
            assert(ks.take(i + 1).last() == keys@[i as int]@);
        }
        match parse_usize(keys[i].as_str()) {
            Some(idx) => {
                if idx < canon.len() {
                    if let Some(name) = net_names.remove(keys[i].as_str()) {
                        net_names.insert(column_key_to_string(&canon[idx]), name);
                    }
                }
            },
            None => {},
        }
        i = i + 1;
    }
    proof {
        assert(ks.take(ks.len() as int) =~= ks);
    }
}

/// Moves the value of the first column of `cols` that has one to `to`, unless `to` has one.
fn adopt_value<V>(mp: &mut StrMap<V>, to: &String, cols: &Vec<ColumnKey>)
    ensures
        final(mp)@ == adopt(old(mp)@, to@, cols@),
{
    if mp.contains_key(to.as_str()) {
        return;
    }
    assert(cols@.skip(0) =~= cols@);
    let mut i: usize = 0;
    while i < cols.len()
        invariant
            i <= cols@.len(),
            !old(mp)@.contains_key(to@),
            mp@ == old(mp)@,
            adopt_first(old(mp)@, to@, cols@) == adopt_first(old(mp)@, to@, cols@.skip(i as int)),
        decreases cols.len() - i,
    {
        proof {
            assert(cols@.skip(i as int).drop_first() =~= cols@.skip(i + 1));
            assert(cols@.skip(i as int)[0] == cols@[i as int]);
        }
        let k = column_key_to_string(&cols[i]);
        if let Some(v) = mp.remove(k.as_str()) {
            mp.insert(to.clone(), v);
            return;
        }
        i = i + 1;
    }
}

/// Moves the row pin of the first column of `cols` that has one to `to`, clamped into
/// `0..matrix_size`, unless `to` has one; tells whether a pin moved.
fn adopt_pin(pins: &mut StrMap<i32>, to: &String, cols: &Vec<ColumnKey>, matrix_size: i32) -> (r: bool)
    requires
        matrix_size >= 1 || old(pins)@.contains_key(to@) || !has_adoptable(old(pins)@, cols@),
    ensures
        final(pins)@ == (if old(pins)@.contains_key(to@) {
            old(pins)@
        } else {
            adopt_first_pin(old(pins)@, to@, cols@, matrix_size as int)
        }),
        r == (!old(pins)@.contains_key(to@) && has_adoptable(old(pins)@, cols@)),
{
    if pins.contains_key(to.as_str()) {
        return false;
    }
    assert(cols@.skip(0) =~= cols@);
    let mut i: usize = 0;
    while i < cols.len()
        invariant
            i <= cols@.len(),
            !old(pins)@.contains_key(to@),
            pins@ == old(pins)@,
            matrix_size >= 1 || !has_adoptable(old(pins)@, cols@.skip(i as int)),
            adopt_first_pin(old(pins)@, to@, cols@, matrix_size as int) == adopt_first_pin(
                old(pins)@,
                to@,
                cols@.skip(i as int),
                matrix_size as int,
            ),
            has_adoptable(old(pins)@, cols@) == has_adoptable(old(pins)@, cols@.skip(i as int)),
        decreases cols.len() - i,
    {
        proof {
            assert(cols@.skip(i as int).drop_first() =~= cols@.skip(i + 1));
            assert(cols@.skip(i as int)[0] == cols@[i as int]);
        }
        let k = column_key_to_string(&cols[i]);
        if let Some(row) = pins.remove(k.as_str()) {
            let clamped = clamp_to_rows(row, matrix_size);
            pins.insert(to.clone(), clamped);
            return true;
        }
        i = i + 1;
    }
    false
}

/// Whether `v` holds text `k`.
fn holds_text(v: &Vec<String>, k: &str) -> (r: bool)
    ensures
        r == exists|t: int| 0 <= t < v@.len() && #[trigger] v@[t]@ == k@,
{
    let mut t: usize = 0;
    while t < v.len()
        invariant
            t <= v@.len(),
            forall|u: int| 0 <= u < t ==> #[trigger] v@[u]@ != k@,
        decreases v.len() - t,
    {
        if str_eq(v[t].as_str(), k) {
            return true;
        }
        t = t + 1;
    }
    false
}

/// Drops the row pins that are not on a canonical key or not in `0..matrix_size`.
fn keep_canonical_pins(pins: &mut StrMap<i32>, canon: &Vec<ColumnKey>, matrix_size: i32)
    ensures
        final(pins)@ == canonical_pins(old(pins)@, canon@, matrix_size as int),
{
    let mut canon_strs: Vec<String> = Vec::new();
    let mut c: usize = 0;
    while c < canon.len()
        invariant
            c <= canon@.len(),
            canon_strs@.len() == c,
            forall|t: int| 0 <= t < c ==> #[trigger] canon_strs@[t]@ == key_string(canon@[t]),
        decreases canon.len() - c,
    {
        canon_strs.push(column_key_to_string(&canon[c]));
        c = c + 1;
    }
    let keys = pins.key_list();
    let ghost p0 = pins@;
    let mut i: usize = 0;
    while i < keys.len()
        invariant
            i <= keys@.len(),
            canon_strs@.len() == canon@.len(),
            forall|t: int| 0 <= t < canon@.len() ==> #[trigger] canon_strs@[t]@ == key_string(canon@[t]),
            forall|k: Seq<char>|
                #[trigger] p0.contains_key(k) <==> exists|t: int| 0 <= t < keys@.len() && #[trigger] keys@[t]@ == k,
            forall|t1: int, t2: int| 0 <= t1 < t2 < keys@.len() ==> #[trigger] keys@[t1]@ != #[trigger] keys@[t2]@,
            forall|k: Seq<char>|
                #[trigger] pins@.contains_key(k) <==> p0.contains_key(k) && ((is_canonical_key(canon@, k) && 0 <= p0[k]
                    < matrix_size) || !exists|t: int|
                    0 <= t < i && #[trigger] keys@[t]@ == k),
            forall|k: Seq<char>| pins@.contains_key(k) ==> #[trigger] pins@[k] == p0[k],
        decreases keys.len() - i,
    {
        let k = &keys[i];
        let row_opt = pins.get(k.as_str());
        let canonical = holds_text(&canon_strs, k.as_str());
        let keep_it = match row_opt {
            Some(row) => canonical && 0 <= *row && *row < matrix_size,
            None => true,
        };
        proof {
            assert(p0.contains_key(k@));
            assert(pins@.contains_key(k@)) by {
                assert forall|t: int| 0 <= t < i implies #[trigger] keys@[t]@ != k@ by {
                    assert(keys@[t]@ != keys@[i as int]@);
                }
            }
            assert((exists|t: int| 0 <= t < canon_strs@.len() && #[trigger] canon_strs@[t]@ == k@)
                <==> is_canonical_key(canon@, k@)) by {
                if exists|t: int| 0 <= t < canon_strs@.len() && #[trigger] canon_strs@[t]@ == k@ {
                    let t = choose|t: int| 0 <= t < canon_strs@.len() && #[trigger] canon_strs@[t]@ == k@;
                    assert(key_string(canon@[t]) == k@);
                }
                if exists|j: int| 0 <= j < canon@.len() && #[trigger] key_string(canon@[j]) == k@ {
                    let j = choose|j: int| 0 <= j < canon@.len() && #[trigger] key_string(canon@[j]) == k@;
                    assert(canon_strs@[j]@ == k@);
                }
            }
        }
        proof {
            assert(keep_it == (is_canonical_key(canon@, k@) && 0 <= p0[k@] < matrix_size));
        }
        let ghost before = pins@;
        if !keep_it {
            pins.remove(k.as_str());
        }
        proof {
            assert forall|q: Seq<char>|
                #[trigger] pins@.contains_key(q) <==> p0.contains_key(q) && ((is_canonical_key(canon@, q) && 0 <= p0[q]
                    < matrix_size) || !exists|t: int|
                    0 <= t < i + 1 && #[trigger] keys@[t]@ == q) by {
                if q == k@ {
                    assert(keys@[i as int]@ == q);
                } else {
                    assert(pins@.contains_key(q) == before.contains_key(q));
                    if exists|t: int| 0 <= t < i + 1 && #[trigger] keys@[t]@ == q {
                        let t = choose|t: int| 0 <= t < i + 1 && #[trigger] keys@[t]@ == q;
                        assert(t != i);
                    }
                }
            }
        }
        i = i + 1;
    }
    proof {
        assert(pins@ =~= canonical_pins(p0, canon@, matrix_size as int));
    }
}

proof fn lemma_pins_adopted_mono(
    mp: Map<Seq<char>, i32>,
    canon: Seq<ColumnKey>,
    e: Seq<((ProtoSide, i32, i32), usize)>,
    m: int,
    i: nat,
    j: nat,
)
    requires
        i <= j,
        pins_adopted(mp, canon, e, m, i),
    ensures
        pins_adopted(mp, canon, e, m, j),
    decreases j,
{
    if i < j {
        lemma_pins_adopted_mono(mp, canon, e, m, i, (j - 1) as nat);
    }
}

/// Migrate net names, colors, and row pins to current canonical keys. Handles:
/// 1. Old index-based keys ("0", "1") in net_names from legacy files.
/// 2. Stale canonical keys: when a net extends to include a smaller column, its canonical key
///    changes (e.g. L2→L1). Migrate names, colors, and row pins from the old key to the new one.
/// Orphaned pins (not on any net's canonical key) and pins outside `0..matrix_size` are dropped.
/// Returns true if any row pins were migrated (moved from a column key to canonical); the
/// caller should then route again, since the first routing ran before the migration.
pub fn migrate_net_metadata_after_autoroute(
    net_names: &mut StrMap<String>,
    net_colors: &mut StrMap<[u8; 4]>,
    net_row_pins: &mut StrMap<i32>,
    js: &JumperState,
    matrix_size: i32,
) -> (r: bool)
    requires
        matrix_size >= 1 || !pins_adopted(
            old(net_row_pins)@,
            js.canonical(),
            js.entries(),
            matrix_size as int,
            js.canonical().len(),
        ),
    ensures
        final(net_names)@ == adopt_nets(
            index_key_phase(old(net_names)@, entry_keys(old(net_names).entry_seq()), js.canonical()),
            js.canonical(),
            js.entries(),
            js.canonical().len(),
        ),
        final(net_colors)@ == adopt_nets(old(net_colors)@, js.canonical(), js.entries(), js.canonical().len()),
        final(net_row_pins)@ == canonical_pins(
            adopt_pin_nets(old(net_row_pins)@, js.canonical(), js.entries(), matrix_size as int, js.canonical().len()),
            js.canonical(),
            matrix_size as int,
        ),
        r == pins_adopted(old(net_row_pins)@, js.canonical(), js.entries(), matrix_size as int, js.canonical().len()),
{
    let canon = js.net_canonical_keys();
    migrate_index_keys(net_names, canon);
    let ghost n0 = net_names@;
    let ghost c0 = net_colors@;
    let ghost p0 = net_row_pins@;
    let ghost e = js.entries();
    let ghost m = matrix_size as int;
    let mut pins_migrated = false;
    let mut i: usize = 0;
    while i < canon.len()
        invariant
            canon@ == js.canonical(),
            e == js.entries(),
            m == matrix_size,
            i <= canon@.len(),
            net_names@ == adopt_nets(n0, canon@, e, i as nat),
            net_colors@ == adopt_nets(c0, canon@, e, i as nat),
            net_row_pins@ == adopt_pin_nets(p0, canon@, e, m, i as nat),
            pins_migrated == pins_adopted(p0, canon@, e, m, i as nat),
            matrix_size >= 1 || !pins_adopted(p0, canon@, e, m, canon@.len()),
        decreases canon.len() - i,
    {
        let canon_str = column_key_to_string(&canon[i]);
        let columns = js.columns_for_net(i);
        adopt_value(net_names, &canon_str, &columns);
        adopt_value(net_colors, &canon_str, &columns);
        proof {
            if matrix_size < 1 && !net_row_pins@.contains_key(canon_str@) && has_adoptable(net_row_pins@, columns@) {
                assert(pins_adopted(p0, canon@, e, m, (i + 1) as nat));
                lemma_pins_adopted_mono(p0, canon@, e, m, (i + 1) as nat, canon@.len());
            }
        }
        let moved = adopt_pin(net_row_pins, &canon_str, &columns, matrix_size);
        if moved {
            pins_migrated = true;
        }
        i = i + 1;
    }
    keep_canonical_pins(net_row_pins, canon, matrix_size);
    pins_migrated
}

/// End `a` (when `first`) or end `b` of a connection.
pub open spec fn endpoint(c: Connection, first: bool) -> ProtomatrixTarget {
    if first {
        c.a
    } else {
        c.b
    }
}

/// A move that passes validation merges no nets: an endpoint on a moved column never lands on
/// the column of an endpoint that stays.
pub proof fn lemma_move_no_merge(
    conns: Seq<Connection>,
    lk: spec_fn((ProtoSide, i32)) -> Option<ColumnKey>,
    i: int,
    x: bool,
    j: int,
    y: bool,
)
    requires
        !move_blocked(conns, lk),
        0 <= i < conns.len(),
        0 <= j < conns.len(),
        target_column_any(endpoint(conns[i], x)) matches Some(k) && lk((k.side, k.col)) is Some,
        target_column_any(endpoint(conns[j], y)) matches Some(k) && lk((k.side, k.col)) is None,
    ensures
        target_column_any(remapped_target(endpoint(conns[i], x), lk)) != target_column_any(
            remapped_target(endpoint(conns[j], y), lk),
        ),
{
    let k1 = target_column_any(endpoint(conns[i], x))->0;
    let k2 = target_column_any(endpoint(conns[j], y))->0;
    let d = lk((k1.side, k1.col))->0;
    assert(target_column_any(remapped_target(endpoint(conns[i], x), lk)) == Some(d));
    assert(target_column_any(remapped_target(endpoint(conns[j], y), lk)) == Some(k2));
    if d == k2 {
        assert(lk((k1.side, k1.col)) == Some(ColumnKey { side: k2.side, col: k2.col }));
        assert(is_dest_of(lk, (k2.side, k2.col)));
        assert(blocks(lk, endpoint(conns[j], y)));
        assert(blocks(lk, conns[j].a) || blocks(lk, conns[j].b));
    }
}

/// A group move keeps the spacing of the selected columns of a side: without rotation their
/// destinations keep their gaps, with rotation the gaps are mirrored.
pub proof fn lemma_move_keeps_spacing(
    sel: Seq<ColumnKey>,
    ts: int,
    proto_cols: int,
    rotate_180: bool,
    flip_vertical: bool,
    side: ProtoSide,
    c1: int,
    c2: int,
)
    requires
        proto_cols <= i32::MAX,
        side_fits(sel, side, ts, proto_cols),
        sel_has(sel, side, c1),
        sel_has(sel, side, c2),
    ensures
        ({
            let d1 = planned_dest(sel, side, c1, ts, rotate_180, flip_vertical);
            let d2 = planned_dest(sel, side, c2, ts, rotate_180, flip_vertical);
            &&& d1.side == d2.side
            &&& 0 <= d1.col < proto_cols && 0 <= d2.col < proto_cols
            &&& if rotate_180 {
                d2.col - d1.col == c1 - c2
            } else {
                d2.col - d1.col == c2 - c1
            }
        }),
{
    let i1 = choose|i: int| 0 <= i < sel.len() && (#[trigger] sel[i]).side == side && sel[i].col == c1;
    assert(side_present(sel, side));
    let (lo, hi) = choose|lo: int, hi: int| side_bounds(sel, side, lo, hi);
    assert(exists|lo: int, hi: int| side_bounds(sel, side, lo, hi)) by {
        lemma_side_bounds_exist(sel, side, i1);
    }
    let i2 = choose|i: int| 0 <= i < sel.len() && (#[trigger] sel[i]).side == side && sel[i].col == c2;
    assert(side_bounds(sel, side, side_lo(sel, side), side_hi(sel, side)));
    assert(side_lo(sel, side) <= c1 <= side_hi(sel, side));
    assert(side_lo(sel, side) <= c2 <= side_hi(sel, side));
}

/// A side with a selected column has a smallest and a largest selected column.
proof fn lemma_side_bounds_exist(sel: Seq<ColumnKey>, side: ProtoSide, i0: int)
    requires
        0 <= i0 < sel.len(),
        sel[i0].side == side,
    ensures
        exists|lo: int, hi: int| side_bounds(sel, side, lo, hi),
    decreases sel.len(),
{
    let last = sel.len() - 1;
    let d = sel.drop_last();
    if i0 == last {
        if exists|i: int| 0 <= i < d.len() && (#[trigger] d[i]).side == side {
            let i = choose|i: int| 0 <= i < d.len() && (#[trigger] d[i]).side == side;
            lemma_side_bounds_exist(d, side, i);
            lemma_extend_bounds(sel, side);
        } else {
            let c = sel[last].col as int;
            assert forall|i: int| 0 <= i < sel.len() && (#[trigger] sel[i]).side == side implies c <= sel[i].col <= c by {
                if i < last {
                    assert(d[i] == sel[i]);
                }
            }
            assert(side_bounds(sel, side, c, c));
        }
    } else {
        assert(d[i0] == sel[i0]);
        lemma_side_bounds_exist(d, side, i0);
        lemma_extend_bounds(sel, side);
    }
}

proof fn lemma_extend_bounds(sel: Seq<ColumnKey>, side: ProtoSide)
    requires
        sel.len() > 0,
        exists|lo: int, hi: int| side_bounds(sel.drop_last(), side, lo, hi),
    ensures
        exists|lo: int, hi: int| side_bounds(sel, side, lo, hi),
{
    let d = sel.drop_last();
    let (lo, hi) = choose|lo: int, hi: int| side_bounds(d, side, lo, hi);
    let k = sel.last();
    let lo2 = if k.side == side && (k.col as int) < lo { k.col as int } else { lo };
    let hi2 = if k.side == side && (k.col as int) > hi { k.col as int } else { hi };
    let a = choose|i: int| 0 <= i < d.len() && (#[trigger] d[i]).side == side && d[i].col == lo;
    let b = choose|i: int| 0 <= i < d.len() && (#[trigger] d[i]).side == side && d[i].col == hi;
    assert(sel[a] == d[a] && sel[b] == d[b]);
    assert(sel[sel.len() - 1] == k);
    assert forall|i: int| 0 <= i < sel.len() && (#[trigger] sel[i]).side == side implies lo2 <= sel[i].col <= hi2 by {
        if i < sel.len() - 1 {
            assert(d[i] == sel[i]);
        }
    }
    assert(side_bounds(sel, side, lo2, hi2));
}

/// The neighbor pads of `col` come from its connections: each is the pad end, with its column,
/// of a connection whose other end is a pad of `col`; no neighbor column occurs twice.
pub proof fn lemma_neighbor_pads(conns: Seq<Connection>, col: ColumnKey)
    ensures
        forall|t: int|
            #![trigger neighbor_pads(conns, col)[t]]
            0 <= t < neighbor_pads(conns, col).len() ==> exists|i: int|
                0 <= i < conns.len() && neighbor_of(#[trigger] conns[i], col) == Some(
                    neighbor_pads(conns, col)[t],
                ),
        forall|t1: int, t2: int|
            0 <= t1 < t2 < neighbor_pads(conns, col).len() ==> (#[trigger] neighbor_pads(conns, col)[t1]).0
                != (#[trigger] neighbor_pads(conns, col)[t2]).0,
    decreases conns.len(),
{
    if conns.len() > 0 {
        let d = conns.drop_last();
        lemma_neighbor_pads(d, col);
        let acc = neighbor_pads(d, col);
        let p = neighbor_pads(conns, col);
        assert forall|t: int| #![trigger p[t]] 0 <= t < p.len() implies exists|i: int|
            0 <= i < conns.len() && neighbor_of(#[trigger] conns[i], col) == Some(p[t]) by {
            if t < acc.len() {
                assert(p[t] == acc[t]);
                let i = choose|i: int| 0 <= i < d.len() && neighbor_of(#[trigger] d[i], col) == Some(acc[t]);
                assert(conns[i] == d[i]);
            } else {
                assert(neighbor_of(conns[conns.len() - 1], col) == Some(p[t]));
            }
        }
        assert forall|t1: int, t2: int| 0 <= t1 < t2 < p.len() implies (#[trigger] p[t1]).0 != (#[trigger] p[t2]).0 by {
            if t2 < acc.len() {
                assert(p[t1] == acc[t1] && p[t2] == acc[t2]);
            } else {
                assert(p[t1] == acc[t1]);
                assert(!has_pad_column(acc, p[t2].0));
            }
        }
    }
}

/// A connection offering a neighbor pad joins `col` to the neighbor's column.
proof fn lemma_neighbor_of_edge(c: Connection, col: ColumnKey)
    ensures
        match neighbor_of(c, col) {
            Some(q) => (edge_of(c) == Some((col, q.0)) || edge_of(c) == Some((q.0, col))) && q.0 != col
                && target_column(q.1) == Some(q.0),
            None => true,
        },
{
}

/// Every other column joined to `col` by a connection is among its neighbor pads.
proof fn lemma_neighbor_pads_cover(conns: Seq<Connection>, col: ColumnKey, b: ColumnKey)
    requires
        linked(conns, col, b),
        b != col,
    ensures
        has_pad_column(neighbor_pads(conns, col), b),
    decreases conns.len(),
{
    let n = conns.len() - 1;
    let d = conns.drop_last();
    let acc = neighbor_pads(d, col);
    let p = neighbor_pads(conns, col);
    if edge_of(conns[n]) == Some((col, b)) || edge_of(conns[n]) == Some((b, col)) {
        assert(neighbor_of(conns.last(), col) is Some);
        let q = neighbor_of(conns.last(), col).unwrap();
        assert(q.0 == b);
        if has_pad_column(acc, b) {
            let j = choose|j: int| 0 <= j < acc.len() && (#[trigger] acc[j]).0 == b;
            assert(p[j] == acc[j]);
        } else {
            assert(p[acc.len() as int].0 == b);
        }
    } else {
        let i = choose|i: int|
            0 <= i < conns.len() && (#[trigger] edge_of(conns[i]) == Some((col, b)) || edge_of(conns[i])
                == Some((b, col)));
        assert(i < n);
        assert(d[i] == conns[i]);
        assert(linked(d, col, b));
        lemma_neighbor_pads_cover(d, col, b);
        let j = choose|j: int| 0 <= j < acc.len() && (#[trigger] acc[j]).0 == b;
        assert(p[j] == acc[j]);
    }
}

/// A walk of `c1` maps to a connection of `c2` when each step of `c1` does.
proof fn lemma_walk_map(c1: Seq<Connection>, c2: Seq<Connection>, q: Seq<ColumnKey>, lab: spec_fn(ColumnKey) -> ColumnKey)
    requires
        is_walk(c1, q),
        forall|a: ColumnKey, b: ColumnKey| #[trigger] linked(c1, a, b) ==> connected(c2, lab(a), lab(b)),
    ensures
        connected(c2, lab(q[0]), lab(q.last())),
    decreases q.len(),
{
    if q.len() == 1 {
        lemma_connected_refl(c2, lab(q[0]));
    } else {
        let r = q.drop_last();
        assert forall|i: int| 0 <= i < r.len() - 1 implies #[trigger] linked(c1, r[i], r[i + 1]) by {
            assert(linked(c1, q[i], q[i + 1]));
        }
        assert(is_walk(c1, r));
        lemma_walk_map(c1, c2, r, lab);
        let j = q.len() - 2;
        assert(linked(c1, q[j], q[j + 1]));
        assert(r.last() == q[j]);
        lemma_connected_trans(c2, lab(q[0]), lab(q[j]), lab(q[j + 1]));
    }
}

/// Disconnecting a column removes it from its net and keeps the rest of the net together: no
/// connection touches the column afterwards, any two of its former neighbor columns are
/// connected, and any two other columns are connected afterwards exactly when they were before.
pub proof fn lemma_disconnect_keeps_net(conns: Seq<Connection>, col: ColumnKey)
    ensures
        forall|t1: int, t2: int|
            0 <= t1 < neighbor_pads(conns, col).len() && 0 <= t2 < neighbor_pads(conns, col).len() ==> connected(
                disconnected(conns, col),
                (#[trigger] neighbor_pads(conns, col)[t1]).0,
                (#[trigger] neighbor_pads(conns, col)[t2]).0,
            ),
        forall|t: int|
            0 <= t < disconnected(conns, col).len() ==> !touches_column(#[trigger] disconnected(conns, col)[t], col),
        forall|x: ColumnKey, y: ColumnKey|
            #![trigger connected(conns, x, y)]
            #![trigger connected(disconnected(conns, col), x, y)]
            x != col && y != col ==> (connected(conns, x, y) <==> connected(disconnected(conns, col), x, y)),
{
    let p = neighbor_pads(conns, col);
    let r = disconnected(conns, col);
    let pred = |c: Connection| !touches_column(c, col);
    let f = conns.filter(pred);
    let st = star_connections(p);
    lemma_neighbor_pads(conns, col);
    assert forall|t: int| 0 <= t < p.len() implies target_column((#[trigger] p[t]).1) == Some(p[t].0) && p[t].0
        != col && linked(conns, col, p[t].0) by {
        let i = choose|i: int| 0 <= i < conns.len() && neighbor_of(#[trigger] conns[i], col) == Some(p[t]);
        lemma_neighbor_of_edge(conns[i], col);
    }
    assert forall|t: int| 0 < t < p.len() implies linked(r, p[0].0, #[trigger] p[t].0) by {
        let x = f.len() + (t - 1);
        assert(r[x] == st[t - 1]);
        assert(edge_of(r[x]) == Some((p[0].0, p[t].0)));
    }
    assert forall|t: int| 0 <= t < p.len() implies connected(r, p[0].0, #[trigger] p[t].0) by {
        if t == 0 {
            lemma_connected_refl(r, p[0].0);
        } else {
            lemma_linked_connected(r, p[0].0, p[t].0);
        }
    }
    assert forall|t1: int, t2: int| 0 <= t1 < p.len() && 0 <= t2 < p.len() implies connected(
        r,
        (#[trigger] p[t1]).0,
        (#[trigger] p[t2]).0,
    ) by {
        assert(connected(r, p[0].0, p[t1].0));
        assert(connected(r, p[0].0, p[t2].0));
        lemma_connected_sym(r, p[0].0, p[t1].0);
        lemma_connected_trans(r, p[t1].0, p[0].0, p[t2].0);
    }
    assert forall|t: int| 0 <= t < r.len() implies !touches_column(#[trigger] r[t], col) by {
        if t < f.len() {
            conns.lemma_filter_pred(pred, t);
            assert(r[t] == f[t]);
        } else {
            let u = t - f.len();
            assert(r[t] == st[u]);
            assert(st[u] == Connection { a: p[0].1, b: p[u + 1].1 });
        }
    }
    // Each connection of the result joins columns that were connected before.
    let id = |k: ColumnKey| k;
    assert forall|a: ColumnKey, b: ColumnKey| #[trigger] linked(r, a, b) implies connected(conns, id(a), id(b)) by {
        let i = choose|i: int|
            0 <= i < r.len() && (#[trigger] edge_of(r[i]) == Some((a, b)) || edge_of(r[i]) == Some((b, a)));
        if i < f.len() {
            assert(r[i] == f[i]);
            assert(f.contains(f[i]));
            conns.lemma_filter_contains_rev(pred, f[i]);
            let j = choose|j: int| 0 <= j < conns.len() && conns[j] == f[i];
            assert(linked(conns, a, b));
            lemma_linked_connected(conns, a, b);
        } else {
            let u = i - f.len();
            assert(r[i] == st[u]);
            assert(edge_of(r[i]) == Some((p[0].0, p[u + 1].0)));
            lemma_linked_connected(conns, col, p[0].0);
            lemma_linked_connected(conns, col, p[u + 1].0);
            lemma_connected_sym(conns, col, p[0].0);
            lemma_connected_trans(conns, p[0].0, col, p[u + 1].0);
            if edge_of(r[i]) == Some((b, a)) {
                lemma_connected_sym(conns, p[0].0, p[u + 1].0);
            }
        }
    }
    // Each connection before maps, with `col` standing for its first neighbor, to columns
    // connected afterwards.
    let rep = if p.len() > 0 { p[0].0 } else { col };
    let lab = |k: ColumnKey| if k == col { rep } else { k };
    assert forall|a: ColumnKey, b: ColumnKey| #[trigger] linked(conns, a, b) implies connected(r, lab(a), lab(b)) by {
        if a != col && b != col {
            let i = choose|i: int|
                0 <= i < conns.len() && (#[trigger] edge_of(conns[i]) == Some((a, b)) || edge_of(conns[i])
                    == Some((b, a)));
            assert(pred(conns[i]));
            conns.lemma_filter_contains(pred, i);
            let j = choose|j: int| 0 <= j < f.len() && f[j] == conns[i];
            assert(r[j] == f[j]);
            assert(linked(r, a, b));
            lemma_linked_connected(r, a, b);
        } else if a == col && b == col {
            lemma_connected_refl(r, rep);
        } else if a == col {
            lemma_neighbor_pads_cover(conns, col, b);
            let t = choose|t: int| 0 <= t < p.len() && (#[trigger] p[t]).0 == b;
            assert(connected(r, p[0].0, p[t].0));
        } else {
            lemma_linked_sym(conns, a, b);
            lemma_neighbor_pads_cover(conns, col, a);
            let t = choose|t: int| 0 <= t < p.len() && (#[trigger] p[t]).0 == a;
            assert(connected(r, p[0].0, p[t].0));
            lemma_connected_sym(r, p[0].0, p[t].0);
        }
    }
    assert forall|x: ColumnKey, y: ColumnKey|
        x != col && y != col implies (connected(conns, x, y) <==> connected(r, x, y)) by {
        if connected(conns, x, y) {
            let q = choose|q: Seq<ColumnKey>| #[trigger] is_walk(conns, q) && q[0] == x && q.last() == y;
            lemma_walk_map(conns, r, q, lab);
        }
        if connected(r, x, y) {
            let q = choose|q: Seq<ColumnKey>| #[trigger] is_walk(r, q) && q[0] == x && q.last() == y;
            lemma_walk_map(r, conns, q, id);
        }
    }
}

/// `k` is an old-style index key naming one of the first `n` nets.
pub open spec fn index_key_below(k: Seq<char>, n: int) -> bool {
    parsed_usize(k) matches Some(i) && (i as int) < n
}

proof fn lemma_key_string_not_index(c: ColumnKey)
    ensures
        parsed_usize(key_string(c)) is None,
{
    let s = key_string(c);
    assert(s[0] == 'L' || s[0] == 'U');
    assert(!is_digit(s[0]));
}

/// The domain of the map described by entries is covered by their keys.
proof fn lemma_map_of_dom<V>(s: Seq<(Seq<char>, V)>)
    ensures
        forall|k: Seq<char>| #[trigger] map_of(s).contains_key(k) ==> entry_keys(s).contains(k),
    decreases s.len(),
{
    if s.len() > 0 {
        let d = s.drop_last();
        lemma_map_of_dom(d);
        assert forall|k: Seq<char>| #[trigger] map_of(s).contains_key(k) implies entry_keys(s).contains(k) by {
            if k == s.last().0 {
                assert(entry_keys(s)[s.len() - 1] == k);
            } else {
                assert(map_of(d).contains_key(k));
                let t = choose|t: int| 0 <= t < entry_keys(d).len() && entry_keys(d)[t] == k;
                assert(entry_keys(s)[t] == k);
            }
        }
    }
}

/// After the index-key phase, the only index keys left are ones the phase did not visit.
proof fn lemma_index_phase_clears<V>(mp: Map<Seq<char>, V>, keys: Seq<Seq<char>>, canon: Seq<ColumnKey>)
    ensures
        forall|k: Seq<char>|
            #[trigger] index_key_phase(mp, keys, canon).contains_key(k) && index_key_below(k, canon.len() as int)
                ==> mp.contains_key(k) && !keys.contains(k),
    decreases keys.len(),
{
    if keys.len() > 0 {
        let d = keys.drop_last();
        let key = keys.last();
        lemma_index_phase_clears(mp, d, canon);
        let m1 = index_key_phase(mp, d, canon);
        assert forall|k: Seq<char>|
            #[trigger] index_key_phase(mp, keys, canon).contains_key(k) && index_key_below(k, canon.len() as int)
                implies mp.contains_key(k) && !keys.contains(k) by {
            match parsed_usize(key) {
                Some(idx) => {
                    if (idx as int) < canon.len() && m1.contains_key(key) {
                        lemma_key_string_not_index(canon[idx as int]);
                    }
                },
                None => {},
            }
            assert(m1.contains_key(k));
            assert(!d.contains(k));
            if keys.contains(k) {
                let t = choose|t: int| 0 <= t < keys.len() && keys[t] == k;
                if t < d.len() {
                    assert(d[t] == k);
                }
            }
        }
    }
}

/// The index-key phase changes nothing when no index key is left.
proof fn lemma_index_phase_noop<V>(mp: Map<Seq<char>, V>, keys: Seq<Seq<char>>, canon: Seq<ColumnKey>)
    requires
        forall|k: Seq<char>| #[trigger] mp.contains_key(k) ==> !index_key_below(k, canon.len() as int),
    ensures
        index_key_phase(mp, keys, canon) == mp,
    decreases keys.len(),
{
    if keys.len() > 0 {
        lemma_index_phase_noop(mp, keys.drop_last(), canon);
    }
}

/// What routing a board gives: the jumper states to show, and the routing error, if any.
pub struct RouteOutcome {
    pub jumper_state: Option<JumperState>,
    pub error: Option<String>,
}

/// Routing a board whose nets are `nets` on `m` rows, with its metadata before (`names0`,
/// `name_keys` its keys in order, `colors0`, `pins0`) and after (`names`, `colors`, `pins`):
/// with more nets than rows the error comes back, the previous jumper states stay and nothing
/// changes; else the nets are routed with the row pins and the metadata migrated to the
/// canonical keys, and when that moved a row pin, routed and migrated once more with the new
/// pins.
pub open spec fn board_routed(
    nets: Seq<Seq<ColumnKey>>,
    m: int,
    names0: Map<Seq<char>, String>,
    name_keys: Seq<Seq<char>>,
    colors0: Map<Seq<char>, [u8; 4]>,
    pins0: Map<Seq<char>, i32>,
    previous: Option<JumperState>,
    names: Map<Seq<char>, String>,
    colors: Map<Seq<char>, [u8; 4]>,
    pins: Map<Seq<char>, i32>,
    r: RouteOutcome,
) -> bool {
    let canon = canonical_keys(nets);
    let n = nets.len();
    if m >= 0 && n > m {
        &&& r.error matches Some(e) && e@ == too_many_nets_message(n, m as nat)
        &&& r.jumper_state == previous
        &&& names == names0 && colors == colors0 && pins == pins0
    } else {
        let e1 = route_entries(nets, row_plan(net_pin_requests(nets, Some(pins0)), m));
        let names1 = adopt_nets(index_key_phase(names0, name_keys, canon), canon, e1, n);
        let colors1 = adopt_nets(colors0, canon, e1, n);
        let pins1 = canonical_pins(adopt_pin_nets(pins0, canon, e1, m, n), canon, m);
        let e2 = route_entries(nets, row_plan(net_pin_requests(nets, Some(pins1)), m));
        &&& r.error is None
        &&& r.jumper_state matches Some(js) && js.canonical() == canon
        &&& if !pins_adopted(pins0, canon, e1, m, n) {
            &&& r.jumper_state->0.entries() == e1
            &&& names == names1 && colors == colors1 && pins == pins1
        } else {
            &&& r.jumper_state->0.entries() == e2
            &&& names == adopt_nets(names1, canon, e2, n)
            &&& colors == adopt_nets(colors1, canon, e2, n)
            &&& pins == canonical_pins(adopt_pin_nets(pins1, canon, e2, m, n), canon, m)
        }
    }
}

/// Run autoroute, migrate metadata, and re-run if pins were migrated (canonical changed after
/// merge).
pub fn run_autoroute(
    matrix_size: i32,
    connections: &[Connection],
    net_names: &mut StrMap<String>,
    net_colors: &mut StrMap<[u8; 4]>,
    net_row_pins: &mut StrMap<i32>,
    previous: Option<JumperState>,
) -> (r: RouteOutcome)
    requires
        matrix_size >= 0 || forall|i: int|
            0 <= i < connections@.len() ==> #[trigger] edge_of(connections@[i]) is None,
    ensures
        exists|nets: Seq<Seq<ColumnKey>>|
            is_net_partition(connections@, nets) && board_routed(
                nets,
                matrix_size as int,
                old(net_names)@,
                entry_keys(old(net_names).entry_seq()),
                old(net_colors)@,
                old(net_row_pins)@,
                previous,
                final(net_names)@,
                final(net_colors)@,
                final(net_row_pins)@,
                r,
            ),
{
    let ghost m = matrix_size as int;
    let ghost names0 = net_names@;
    let ghost keys0 = entry_keys(net_names.entry_seq());
    let ghost colors0 = net_colors@;
    let ghost pins0 = net_row_pins@;
    let first = autoroute(matrix_size, connections, Some(&*net_row_pins));
    let ghost nets = choose|nets: Seq<Seq<ColumnKey>>|
        is_net_partition(connections@, nets) && routes(first, nets, Some(pins0), m);
    proof {
        if matrix_size < 0 && nets.len() > 0 {
            assert(nets[0].len() > 0);
            assert(routed(connections@, nets[0][0]));
            let t = choose|t: int| 0 <= t < connections@.len() && #[trigger] touches(connections@[t], nets[0][0]);
            assert(edge_of(connections@[t]) is None);
        }
    }
    let js = match first {
        AutorouteResult::Failed(e) => {
            let r = RouteOutcome { jumper_state: previous, error: Some(e) };
            assert(board_routed(nets, m, names0, keys0, colors0, pins0, previous, net_names@, net_colors@, net_row_pins@, r));
            return r;
        },
        AutorouteResult::Routed(js) => js,
    };
    let ghost canon = canonical_keys(nets);
    let ghost n = nets.len();
    let ghost e1 = js.entries();
    proof {
        assert(js.canonical().len() == n);
    }
    let moved = migrate_net_metadata_after_autoroute(net_names, net_colors, net_row_pins, &js, matrix_size);
    if !moved {
        let r = RouteOutcome { jumper_state: Some(js), error: None };
        assert(board_routed(nets, m, names0, keys0, colors0, pins0, previous, net_names@, net_colors@, net_row_pins@, r));
        return r;
    }
    let ghost names1 = net_names@;
    let ghost keys1 = entry_keys(net_names.entry_seq());
    let ghost colors1 = net_colors@;
    let ghost pins1 = net_row_pins@;
    let second = autoroute(matrix_size, connections, Some(&*net_row_pins));
    let ghost nets2 = choose|nets2: Seq<Seq<ColumnKey>>|
        is_net_partition(connections@, nets2) && routes(second, nets2, Some(pins1), m);
    proof {
        lemma_net_partition_unique(connections@, nets, nets2);
    }
    match second {
        AutorouteResult::Routed(js2) => {
            proof {
                lemma_map_of_dom(net_names.entry_seq());
                assert forall|k: Seq<char>| #[trigger] names1.contains_key(k) implies !index_key_below(k, n as int) by {
                    lemma_index_phase_clears(names0, keys0, canon);
                    lemma_map_of_dom(old(net_names).entry_seq());
                    let mid = index_key_phase(names0, keys0, canon);
                    if index_key_below(k, n as int) {
                        lemma_adopt_nets_keys(mid, canon, e1, n);
                        assert(mid.contains_key(k));
                        assert(names0.contains_key(k));
                        assert(keys0.contains(k));
                    }
                }
                lemma_index_phase_noop(names1, keys1, canon);
            }
            migrate_net_metadata_after_autoroute(net_names, net_colors, net_row_pins, &js2, matrix_size);
            let r = RouteOutcome { jumper_state: Some(js2), error: None };
            assert(board_routed(nets, m, names0, keys0, colors0, pins0, previous, net_names@, net_colors@, net_row_pins@, r));
            r
        },
        AutorouteResult::Failed(e) => {
            assert(false);
            RouteOutcome { jumper_state: Some(js), error: Some(e) }
        },
    }
}

/// Adoption only adds canonical keys: a key of the result that is not canonical was there before.
proof fn lemma_adopt_nets_keys<V>(
    mp: Map<Seq<char>, V>,
    canon: Seq<ColumnKey>,
    e: Seq<((ProtoSide, i32, i32), usize)>,
    n: nat,
)
    requires
        n <= canon.len(),
    ensures
        forall|k: Seq<char>|
            #[trigger] adopt_nets(mp, canon, e, n).contains_key(k) && !is_canonical_key(canon, k) ==> mp.contains_key(k),
    decreases n,
{
    if n > 0 {
        lemma_adopt_nets_keys(mp, canon, e, (n - 1) as nat);
        let prev = adopt_nets(mp, canon, e, (n - 1) as nat);
        let to = key_string(canon[n - 1]);
        assert(is_canonical_key(canon, to)) by {
            assert(key_string(canon[n - 1]) == to);
        }
        lemma_adopt_first_keys(prev, to, net_columns(e, (n - 1) as usize));
    }
}

proof fn lemma_adopt_first_keys<V>(mp: Map<Seq<char>, V>, to: Seq<char>, cols: Seq<ColumnKey>)
    ensures
        forall|k: Seq<char>| #[trigger] adopt(mp, to, cols).contains_key(k) && k != to ==> mp.contains_key(k),
        forall|k: Seq<char>| #[trigger] adopt_first(mp, to, cols).contains_key(k) && k != to ==> mp.contains_key(k),
    decreases cols.len(),
{
    if cols.len() > 0 {
        lemma_adopt_first_keys(mp, to, cols.drop_first());
        let k0 = key_string(cols[0]);
        if mp.contains_key(k0) {
            assert forall|k: Seq<char>| #[trigger] adopt_first(mp, to, cols).contains_key(k) && k != to implies mp.contains_key(k) by {
                assert(adopt_first(mp, to, cols) == mp.remove(k0).insert(to, mp[k0]));
            }
        } else {
            assert(adopt_first(mp, to, cols) == adopt_first(mp, to, cols.drop_first()));
        }
    }
}

/// The row pins without those on row `a` or row `b`.
pub open spec fn pins_off_rows(mp: Map<Seq<char>, i32>, a: int, b: int) -> Map<Seq<char>, i32> {
    Map::new(|k: Seq<char>| mp.contains_key(k) && mp[k] != a && mp[k] != b, |k: Seq<char>| mp[k])
}

/// Dropping the net with index `src` (of the canonical keys `canon`) from `source_row` onto
/// `target_row`, whose net is `tgt`: the pins on either row are released, the dragged net is
/// pinned to `target_row` and the net that was there, if any, to `source_row`. An unknown net
/// changes nothing.
pub open spec fn row_drop(
    mp: Map<Seq<char>, i32>,
    canon: Seq<ColumnKey>,
    src: int,
    tgt: Option<usize>,
    source_row: i32,
    target_row: i32,
) -> Map<Seq<char>, i32> {
    if 0 <= src < canon.len() {
        let moved = pins_off_rows(mp, source_row as int, target_row as int).insert(
            key_string(canon[src]),
            target_row,
        );
        match tgt {
            Some(t) => if (t as int) < canon.len() {
                moved.insert(key_string(canon[t as int]), source_row)
            } else {
                moved
            },
            None => moved,
        }
    } else {
        mp
    }
}

/// Releases the row pins on row `a` or row `b`.
fn release_rows(pins: &mut StrMap<i32>, a: i32, b: i32)
    ensures
        final(pins)@ == pins_off_rows(old(pins)@, a as int, b as int),
{
    let keys = pins.key_list();
    let ghost p0 = pins@;
    let mut i: usize = 0;
    while i < keys.len()
        invariant
            i <= keys@.len(),
            forall|k: Seq<char>|
                #[trigger] p0.contains_key(k) <==> exists|t: int| 0 <= t < keys@.len() && #[trigger] keys@[t]@ == k,
            forall|t1: int, t2: int| 0 <= t1 < t2 < keys@.len() ==> #[trigger] keys@[t1]@ != #[trigger] keys@[t2]@,
            forall|k: Seq<char>|
                #[trigger] pins@.contains_key(k) <==> p0.contains_key(k) && ((p0[k] != a && p0[k] != b)
                    || !exists|t: int| 0 <= t < i && #[trigger] keys@[t]@ == k),
            forall|k: Seq<char>| pins@.contains_key(k) ==> #[trigger] pins@[k] == p0[k],
        decreases keys.len() - i,
    {
        let k = &keys[i];
        proof {
            assert(p0.contains_key(k@));
            assert(pins@.contains_key(k@)) by {
                assert forall|t: int| 0 <= t < i implies #[trigger] keys@[t]@ != k@ by {
                    assert(keys@[t]@ != keys@[i as int]@);
                }
            }
        }
        let on_row = match pins.get(k.as_str()) {
            Some(row) => *row == a || *row == b,
            None => false,
        };
        let ghost before = pins@;
        if on_row {
            pins.remove(k.as_str());
        }
        proof {
            assert forall|q: Seq<char>|
                #[trigger] pins@.contains_key(q) <==> p0.contains_key(q) && ((p0[q] != a && p0[q] != b)
                    || !exists|t: int| 0 <= t < i + 1 && #[trigger] keys@[t]@ == q) by {
                if q == k@ {
                    assert(keys@[i as int]@ == q);
                } else {
                    assert(pins@.contains_key(q) == before.contains_key(q));
                    if exists|t: int| 0 <= t < i + 1 && #[trigger] keys@[t]@ == q {
                        let t = choose|t: int| 0 <= t < i + 1 && #[trigger] keys@[t]@ == q;
                        assert(t != i);
                    }
                }
            }
        }
        i = i + 1;
    }
    proof {
        assert(pins@ =~= pins_off_rows(p0, a as int, b as int));
    }
}

/// A net row dragged onto another row: the dragged net (index `source_net_idx`, now on
/// `source_row`) is pinned to `target_row` and the net found there, if any, to `source_row`;
/// any other pin on either row is released first.
pub fn drop_net_on_row(
    pins: &mut StrMap<i32>,
    js: &JumperState,
    source_net_idx: usize,
    source_row: i32,
    target_row: i32,
)
    ensures
        final(pins)@ == row_drop(
            old(pins)@,
            js.canonical(),
            source_net_idx as int,
            js.row_net(target_row),
            source_row,
            target_row,
        ),
{
    let canon = js.net_canonical_keys();
    if source_net_idx >= canon.len() {
        return;
    }
    let src_key = column_key_to_string(&canon[source_net_idx]);
    let target_net = js.net_for_row(target_row);
    let tgt_key = match target_net {
        Some(ni) => if ni < canon.len() {
            Some(column_key_to_string(&canon[ni]))
        } else {
            None
        },
        None => None,
    };
    release_rows(pins, source_row, target_row);
    pins.insert(src_key, target_row);
    if let Some(k) = tgt_key {
        pins.insert(k, source_row);
    }
}

/// Adds the connection `c` and routes the board; when routing fails, the connection is taken
/// out again, and the error comes back with the previous jumper states.
pub fn add_connection_and_route(
    connections: &mut Vec<Connection>,
    c: Connection,
    matrix_size: i32,
    net_names: &mut StrMap<String>,
    net_colors: &mut StrMap<[u8; 4]>,
    net_row_pins: &mut StrMap<i32>,
    previous: Option<JumperState>,
) -> (r: RouteOutcome)
    requires
        matrix_size >= 0 || (edge_of(c) is None && forall|i: int|
            0 <= i < old(connections)@.len() ==> #[trigger] edge_of(old(connections)@[i]) is None),
    ensures
        exists|nets: Seq<Seq<ColumnKey>>|
            is_net_partition(old(connections)@.push(c), nets) && board_routed(
                nets,
                matrix_size as int,
                old(net_names)@,
                entry_keys(old(net_names).entry_seq()),
                old(net_colors)@,
                old(net_row_pins)@,
                previous,
                final(net_names)@,
                final(net_colors)@,
                final(net_row_pins)@,
                r,
            ),
        final(connections)@ == (if r.error is Some {
            old(connections)@
        } else {
            old(connections)@.push(c)
        }),
{
    let ghost c0 = connections@;
    connections.push(c);
    proof {
        assert forall|i: int| 0 <= i < connections@.len() && matrix_size < 0 implies #[trigger] edge_of(
            connections@[i],
        ) is None by {
            if i < c0.len() {
                assert(connections@[i] == c0[i]);
            }
        }
    }
    let r = run_autoroute(matrix_size, connections.as_slice(), net_names, net_colors, net_row_pins, previous);
    if r.error.is_some() {
        connections.pop();
        proof {
            assert(connections@ =~= c0);
        }
    }
    r
}

/// The columns of `sel` that are on a net of the routing `js` (with a closed jumper in
/// `0..matrix_size`), in order.
pub fn columns_with_net(sel: &Vec<ColumnKey>, js: &JumperState, matrix_size: i32) -> (r: Vec<ColumnKey>)
    ensures
        r@ == sel@.filter(|k: ColumnKey| js.column_net(k.side, k.col, matrix_size as int) is Some),
{
    let ghost pred = |k: ColumnKey| js.column_net(k.side, k.col, matrix_size as int) is Some;
    let mut r: Vec<ColumnKey> = Vec::new();
    let mut i: usize = 0;
    while i < sel.len()
        invariant
            i <= sel@.len(),
            pred == (|k: ColumnKey| js.column_net(k.side, k.col, matrix_size as int) is Some),
            r@ == sel@.take(i as int).filter(pred),
        decreases sel.len() - i,
    {
        let k = sel[i];
        proof {
            reveal(Seq::filter);
            assert(sel@.take(i + 1).drop_last() =~= sel@.take(i as int));
            assert(sel@.take(i + 1).last() == k);
        }
        if js.net_for_column(k.side, k.col, matrix_size).is_some() {
            r.push(k);
        }
        i = i + 1;
    }
    proof {
        assert(sel@.take(sel@.len() as int) =~= sel@);
    }
    r
}

/// What an edit dialog leaves for `key` (a net name or a column note) after the text `text` is
/// entered: the text without leading and trailing whitespace, or, when nothing is left, no entry
/// for the key at all.
pub fn set_or_clear_text(map: &mut StrMap<String>, key: &str, text: &str)
    ensures
        trimmed(text@).len() == 0 ==> final(map)@ == old(map)@.remove(key@),
        trimmed(text@).len() > 0 ==> final(map)@.contains_key(key@) && final(map)@[key@]@ == trimmed(text@)
            && final(map)@.remove(key@) == old(map)@.remove(key@),
{
    let t = trim_str(text);
    if t.is_empty() {
        map.remove(key);
    } else {
        let ghost m0 = map@;
        map.insert(String::from_str(key), String::from_str(t));
        proof {
            assert(map@.remove(key@) =~= m0.remove(key@));
        }
    }
}

} // verus!

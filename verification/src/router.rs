//! Matrix autorouter: assigns nets to matrix rows and computes solder jumper states.
//!
//! Connections between pads define nets (the connected components of the columns they join,
//! found with a union-find); each net gets a matrix row (pinned rows first, then the free rows
//! in ascending order); every column of a net closes the jumper at its net's row.

use vstd::prelude::*;
use crate::protomatrix::{JumperStateProvider, ProtoSide, ProtomatrixTarget};
use crate::strmap::StrMap;
use crate::text::{decimal, push_char, push_decimal, push_signed_decimal, signed_decimal};

verus! {

/// Column identifier: (side, col). Pads in the same column share a conductor.
#[derive(Clone, Copy, Debug, PartialEq, Eq, Structural, Hash, PartialOrd, Ord)]
pub struct ColumnKey {
    pub side: ProtoSide,
    pub col: i32,
}

/// Position of a side in the column order (lower before upper).
pub open spec fn side_rank(s: ProtoSide) -> int {
    match s {
        ProtoSide::Lower => 0,
        ProtoSide::Upper => 1,
    }
}

/// The order of columns: by side (lower first), then by column index.
pub open spec fn key_lt(a: ColumnKey, b: ColumnKey) -> bool {
    side_rank(a.side) < side_rank(b.side) || (a.side == b.side && a.col < b.col)
}

/// `a` comes before `b` in the column order.
pub fn key_less(a: ColumnKey, b: ColumnKey) -> (r: bool)
    ensures
        r == key_lt(a, b),
{
    match (a.side, b.side) {
        (ProtoSide::Lower, ProtoSide::Upper) => true,
        (ProtoSide::Upper, ProtoSide::Lower) => false,
        _ => a.col < b.col,
    }
}

/// The column of a pad target.
pub open spec fn target_column(t: ProtomatrixTarget) -> Option<ColumnKey> {
    match t {
        ProtomatrixTarget::Pad { side, col, .. } => Some(ColumnKey { side, col }),
        _ => None,
    }
}

impl ColumnKey {
    pub fn from_pad(pad: &ProtomatrixTarget) -> (r: Option<Self>)
        ensures
            r == target_column(*pad),
    {
        match pad {
            ProtomatrixTarget::Pad { side, col, .. } => Some(ColumnKey { side: *side, col: *col }),
            _ => None,
        }
    }
}

/// Extracts ColumnKey from a pad target; returns None for non-pad targets.
fn pad_to_column(pad: &ProtomatrixTarget) -> (r: Option<ColumnKey>)
    ensures
        r == target_column(*pad),
{
    ColumnKey::from_pad(pad)
}

/// Text of a column key: `L` or `U`, then the column index.
pub open spec fn key_string(k: ColumnKey) -> Seq<char> {
    seq![
        match k.side {
            ProtoSide::Lower => 'L',
            ProtoSide::Upper => 'U',
        },
    ] + signed_decimal(k.col as int)
}

/// Canonical key string for net color lookup (e.g. "L3" for Lower col 3, "U5" for Upper col 5).
pub fn column_key_to_string(col: &ColumnKey) -> (r: String)
    ensures
        r@ == key_string(*col),
{
    let mut r = String::new();
    match col.side {
        ProtoSide::Lower => push_char(&mut r, 'L'),
        ProtoSide::Upper => push_char(&mut r, 'U'),
    }
    push_signed_decimal(&mut r, col.col);
    r
}

/// Connection between two pads. Only Pad targets are valid; others are ignored.
#[derive(Clone, Copy, Debug, PartialEq, Eq, Structural)]
pub struct Connection {
    pub a: ProtomatrixTarget,
    pub b: ProtomatrixTarget,
}

impl Connection {
    pub fn new(a: ProtomatrixTarget, b: ProtomatrixTarget) -> (r: Self)
        ensures
            r == (Connection { a, b }),
    {
        Self { a, b }
    }
}

impl Connection {
    /// Both ends are pads, so the connection joins two columns.
    pub fn joins_pads(&self) -> (r: bool)
        ensures
            r == (edge_of(*self) is Some),
    {
        pad_to_column(&self.a).is_some() && pad_to_column(&self.b).is_some()
    }
}

/// The columns a connection joins, when both ends are pads.
pub open spec fn edge_of(c: Connection) -> Option<(ColumnKey, ColumnKey)> {
    match (target_column(c.a), target_column(c.b)) {
        (Some(x), Some(y)) => Some((x, y)),
        _ => None,
    }
}

/// Some connection joins `a` and `b` (in either direction).
pub open spec fn linked(conns: Seq<Connection>, a: ColumnKey, b: ColumnKey) -> bool {
    exists|i: int|
        0 <= i < conns.len() && (#[trigger] edge_of(conns[i]) == Some((a, b)) || edge_of(conns[i])
            == Some((b, a)))
}

/// `p` is a walk: consecutive columns are joined by a connection.
pub open spec fn is_walk(conns: Seq<Connection>, p: Seq<ColumnKey>) -> bool {
    p.len() >= 1 && forall|i: int| 0 <= i < p.len() - 1 ==> #[trigger] linked(conns, p[i], p[i + 1])
}

/// Columns `a` and `b` are on one net: a walk leads from `a` to `b`.
pub open spec fn connected(conns: Seq<Connection>, a: ColumnKey, b: ColumnKey) -> bool {
    exists|p: Seq<ColumnKey>| #[trigger] is_walk(conns, p) && p[0] == a && p.last() == b
}

/// Column `k` is an end of the pad-to-pad connection `c`.
pub open spec fn touches(c: Connection, k: ColumnKey) -> bool {
    match edge_of(c) {
        Some((x, y)) => x == k || y == k,
        None => false,
    }
}

/// Column `k` is an end of some pad-to-pad connection.
pub open spec fn routed(conns: Seq<Connection>, k: ColumnKey) -> bool {
    exists|i: int| 0 <= i < conns.len() && #[trigger] touches(conns[i], k)
}


pub proof fn lemma_linked_sym(conns: Seq<Connection>, a: ColumnKey, b: ColumnKey)
    requires
        linked(conns, a, b),
    ensures
        linked(conns, b, a),
{
    let i = choose|i: int|
        0 <= i < conns.len() && (#[trigger] edge_of(conns[i]) == Some((a, b)) || edge_of(conns[i])
            == Some((b, a)));
    assert(0 <= i < conns.len() && (edge_of(conns[i]) == Some((b, a)) || edge_of(conns[i]) == Some(
        (a, b),
    )));
}

pub proof fn lemma_connected_refl(conns: Seq<Connection>, a: ColumnKey)
    ensures
        connected(conns, a, a),
{
    let p = seq![a];
    assert(is_walk(conns, p));
}

pub proof fn lemma_linked_connected(conns: Seq<Connection>, a: ColumnKey, b: ColumnKey)
    requires
        linked(conns, a, b),
    ensures
        connected(conns, a, b),
{
    let p = seq![a, b];
    assert(linked(conns, p[0], p[1]));
    assert(is_walk(conns, p));
}

pub proof fn lemma_connected_sym(conns: Seq<Connection>, a: ColumnKey, b: ColumnKey)
    requires
        connected(conns, a, b),
    ensures
        connected(conns, b, a),
{
    let p = choose|p: Seq<ColumnKey>| #[trigger] is_walk(conns, p) && p[0] == a && p.last() == b;
    let q = p.reverse();
    assert forall|i: int| 0 <= i < q.len() - 1 implies #[trigger] linked(conns, q[i], q[i + 1]) by {
        let j = p.len() - 2 - i;
        assert(linked(conns, p[j], p[j + 1]));
        assert(q[i] == p[j + 1] && q[i + 1] == p[j]);
        lemma_linked_sym(conns, p[j], p[j + 1]);
    }
    assert(is_walk(conns, q));
}

pub proof fn lemma_connected_trans(conns: Seq<Connection>, a: ColumnKey, b: ColumnKey, c: ColumnKey)
    requires
        connected(conns, a, b),
        connected(conns, b, c),
    ensures
        connected(conns, a, c),
{
    let p = choose|p: Seq<ColumnKey>| #[trigger] is_walk(conns, p) && p[0] == a && p.last() == b;
    let q = choose|q: Seq<ColumnKey>| #[trigger] is_walk(conns, q) && q[0] == b && q.last() == c;
    let w = p + q.drop_first();
    assert forall|i: int| 0 <= i < w.len() - 1 implies #[trigger] linked(conns, w[i], w[i + 1]) by {
        if i < p.len() - 1 {
            assert(linked(conns, p[i], p[i + 1]));
        } else {
            let j = i - (p.len() - 1);
            assert(linked(conns, q[j], q[j + 1]));
            assert(w[i] == q[j]);
        }
    }
    assert(is_walk(conns, w));
    assert(w.last() == c);
}

/// On a walk, a labelling that agrees across every connection is constant.
pub proof fn lemma_walk_label(
    conns: Seq<Connection>,
    p: Seq<ColumnKey>,
    lab: spec_fn(ColumnKey) -> int,
)
    requires
        is_walk(conns, p),
        forall|a: ColumnKey, b: ColumnKey| #[trigger] linked(conns, a, b) ==> lab(a) == lab(b),
    ensures
        lab(p[0]) == lab(p.last()),
    decreases p.len(),
{
    if p.len() > 1 {
        let q = p.drop_last();
        assert forall|i: int| 0 <= i < q.len() - 1 implies #[trigger] linked(conns, q[i], q[i + 1]) by {
            assert(linked(conns, p[i], p[i + 1]));
        }
        assert(is_walk(conns, q));
        lemma_walk_label(conns, q, lab);
        let j = p.len() - 2;
        assert(linked(conns, p[j], p[j + 1]));
    }
}

/// Connections among a prefix of the list stay connections among a longer prefix.
pub proof fn lemma_linked_prefix(conns: Seq<Connection>, n: int, a: ColumnKey, b: ColumnKey)
    requires
        0 <= n < conns.len(),
    ensures
        linked(conns.take(n + 1), a, b) <==> (linked(conns.take(n), a, b) || edge_of(conns[n]) == Some(
            (a, b),
        ) || edge_of(conns[n]) == Some((b, a))),
{
    let s = conns.take(n);
    let t = conns.take(n + 1);
    if linked(t, a, b) {
        let i = choose|i: int|
            0 <= i < t.len() && (#[trigger] edge_of(t[i]) == Some((a, b)) || edge_of(t[i]) == Some(
                (b, a),
            ));
        if i < n {
            assert(s[i] == t[i]);
            assert(linked(s, a, b));
        }
    }
    if linked(s, a, b) {
        let i = choose|i: int|
            0 <= i < s.len() && (#[trigger] edge_of(s[i]) == Some((a, b)) || edge_of(s[i]) == Some(
                (b, a),
            ));
        assert(s[i] == t[i]);
        assert(linked(t, a, b));
    }
    if edge_of(conns[n]) == Some((a, b)) || edge_of(conns[n]) == Some((b, a)) {
        assert(t[n] == conns[n]);
        assert(linked(t, a, b));
    }
}

pub proof fn lemma_connected_prefix(conns: Seq<Connection>, n: int, a: ColumnKey, b: ColumnKey)
    requires
        0 <= n < conns.len(),
        connected(conns.take(n), a, b),
    ensures
        connected(conns.take(n + 1), a, b),
{
    let p = choose|p: Seq<ColumnKey>| #[trigger] is_walk(conns.take(n), p) && p[0] == a && p.last() == b;
    assert forall|i: int| 0 <= i < p.len() - 1 implies #[trigger] linked(conns.take(n + 1), p[i], p[i + 1]) by {
        assert(linked(conns.take(n), p[i], p[i + 1]));
        lemma_linked_prefix(conns, n, p[i], p[i + 1]);
    }
    assert(is_walk(conns.take(n + 1), p));
}

pub proof fn lemma_routed_prefix(conns: Seq<Connection>, n: int, k: ColumnKey)
    requires
        0 <= n < conns.len(),
    ensures
        routed(conns.take(n + 1), k) <==> (routed(conns.take(n), k) || touches(conns[n], k)),
{
    let s = conns.take(n);
    let t = conns.take(n + 1);
    if routed(t, k) {
        let i = choose|i: int| 0 <= i < t.len() && #[trigger] touches(t[i], k);
        if i < n {
            assert(s[i] == t[i]);
        }
    }
    if routed(s, k) {
        let i = choose|i: int| 0 <= i < s.len() && #[trigger] touches(s[i], k);
        assert(s[i] == t[i]);
    }
    if touches(conns[n], k) {
        assert(t[n] == conns[n]);
    }
}

/// The ends of a connection are routed columns.
pub proof fn lemma_linked_routed(conns: Seq<Connection>, a: ColumnKey, b: ColumnKey)
    requires
        linked(conns, a, b),
    ensures
        routed(conns, a),
        routed(conns, b),
{
    let i = choose|i: int|
        0 <= i < conns.len() && (#[trigger] edge_of(conns[i]) == Some((a, b)) || edge_of(conns[i])
            == Some((b, a)));
    assert(touches(conns[i], a) && touches(conns[i], b));
}


/// The key sequence after adding `k` if it is not there yet.
pub open spec fn add_key(s: Seq<ColumnKey>, k: ColumnKey) -> Seq<ColumnKey> {
    if s.contains(k) {
        s
    } else {
        s.push(k)
    }
}

/// No column occurs twice.
pub open spec fn distinct_columns(s: Seq<ColumnKey>) -> bool {
    forall|i: int, j: int| 0 <= i < j < s.len() ==> s[i] != s[j]
}

/// Representative of index `t` before a step that grew the keys from `n0`: old representative for
/// old keys, itself for new ones.
pub open spec fn extended_rep(r0: Seq<int>, n0: int, t: int) -> int {
    if t < n0 {
        r0[t]
    } else {
        t
    }
}

/// Union-find (disjoint set) over columns, with path splitting in `find`.
struct UnionFind {
    keys: Vec<ColumnKey>,
    parent: Vec<usize>,
    rank: Ghost<Seq<nat>>,
    rep: Ghost<Seq<int>>,
    max_rank: Ghost<nat>,
}

/// The union-find conditions at index `i`: the parent is in range and of higher rank (unless
/// `i` is a root), the representative is a root shared with the parent, roots represent themselves.
spec fn uf_ok(parent: Seq<usize>, rank: Seq<nat>, rep: Seq<int>, max_rank: nat, n: int, i: int) -> bool {
    let p = parent[i] as int;
    &&& p < n
    &&& p != i ==> rank[p] > rank[i]
    &&& rank[i] <= max_rank
    &&& 0 <= rep[i] < n
    &&& parent[rep[i]] == rep[i]
    &&& rep[p] == rep[i]
    &&& p == i ==> rep[i] == i
}

impl UnionFind {
    spec fn ok_at(&self, i: int) -> bool {
        uf_ok(self.parent@, self.rank@, self.rep@, self.max_rank@, self.keys@.len() as int, i)
    }

    spec fn wf(&self) -> bool {
        &&& self.parent@.len() == self.keys@.len()
        &&& self.rank@.len() == self.keys@.len()
        &&& self.rep@.len() == self.keys@.len()
        &&& distinct_columns(self.keys@)
        &&& forall|i: int| 0 <= i < self.keys@.len() ==> #[trigger] self.ok_at(i)
    }

    fn new() -> (uf: Self)
        ensures
            uf.wf(),
            uf.keys@ == Seq::<ColumnKey>::empty(),
    {
        UnionFind {
            keys: Vec::new(),
            parent: Vec::new(),
            rank: Ghost(Seq::empty()),
            rep: Ghost(Seq::empty()),
            max_rank: Ghost(0),
        }
    }

    fn lookup(&self, key: ColumnKey) -> (r: Option<usize>)
        requires
            self.wf(),
        ensures
            match r {
                Some(i) => i < self.keys@.len() && self.keys@[i as int] == key,
                None => !self.keys@.contains(key),
            },
    {
        let mut i: usize = 0;
        while i < self.keys.len()
            invariant
                i <= self.keys@.len(),
                forall|j: int| 0 <= j < i ==> self.keys@[j] != key,
            decreases self.keys.len() - i,
        {
            if self.keys[i] == key {
                return Some(i);
            }
            i = i + 1;
        }
        None
    }

    /// Index of the representative of `key`'s set; `key` is added as a new singleton set when
    /// absent. Splits the path it walks.
    fn find_index(&mut self, key: ColumnKey) -> (r: usize)
        requires
            old(self).wf(),
        ensures
            final(self).wf(),
            final(self).keys@ == add_key(old(self).keys@, key),
            forall|i: int|
                0 <= i < final(self).keys@.len() ==> final(self).rep@[i] == extended_rep(
                    old(self).rep@,
                    old(self).keys@.len() as int,
                    i,
                ),
            r < final(self).keys@.len(),
            forall|i: int|
                0 <= i < final(self).keys@.len() && final(self).keys@[i] == key ==> final(self).rep@[i]
                    == r,
    {
        let ghost n0 = self.keys@.len() as int;
        let ghost r0 = self.rep@;
        let idx = match self.lookup(key) {
            Some(i) => i,
            None => {
                let n = self.keys.len();
                self.keys.push(key);
                self.parent.push(n);
                self.rank = Ghost(self.rank@.push(0));
                self.rep = Ghost(self.rep@.push(n as int));
                assert forall|i: int| 0 <= i < self.keys@.len() implies #[trigger] self.ok_at(i) by {
                    if i < n {
                        assert(old(self).ok_at(i));
                    }
                }
                assert forall|i: int, j: int| 0 <= i < j < self.keys@.len() implies self.keys@[i]
                    != self.keys@[j] by {
                    if j == n {
                        assert(old(self).keys@[i] == self.keys@[i]);
                    }
                }
                n
            },
        };
        assert(self.keys@ == add_key(old(self).keys@, key));
        assert forall|i: int| 0 <= i < self.keys@.len() implies self.rep@[i] == extended_rep(r0, n0, i) by {}
        let ghost target = self.rep@[idx as int];
        let mut k = idx;
        loop
            invariant
                self.wf(),
                self.keys@ == add_key(old(self).keys@, key),
                forall|i: int| 0 <= i < self.keys@.len() ==> self.rep@[i] == extended_rep(r0, n0, i),
                n0 == old(self).keys@.len(),
                r0 == old(self).rep@,
                idx < self.keys@.len(),
                self.keys@[idx as int] == key,
                target == self.rep@[idx as int],
                k < self.keys@.len(),
                self.rep@[k as int] == target,
            ensures
                self.wf(),
                self.keys@ == add_key(old(self).keys@, key),
                forall|i: int| 0 <= i < self.keys@.len() ==> self.rep@[i] == extended_rep(r0, n0, i),
                idx < self.keys@.len(),
                self.keys@[idx as int] == key,
                target == self.rep@[idx as int],
                k < self.keys@.len(),
                self.rep@[k as int] == target,
                self.parent@[k as int] == k,
            decreases self.max_rank@ - self.rank@[k as int],
        {
            assert(self.ok_at(k as int));
            let p = self.parent[k];
            if p == k {
                break;
            }
            assert(self.ok_at(p as int));
            let gp = self.parent[p];
            let ghost old_parent = self.parent@;
            let ghost n = self.keys@.len() as int;
            assert(forall|i: int|
                0 <= i < n ==> #[trigger] uf_ok(old_parent, self.rank@, self.rep@, self.max_rank@, n, i)) by {
                assert forall|i: int| 0 <= i < n implies #[trigger] uf_ok(old_parent, self.rank@, self.rep@, self.max_rank@, n, i) by {
                    assert(self.ok_at(i));
                }
            }
            self.parent.set(k, gp);
            assert forall|i: int| 0 <= i < self.keys@.len() implies #[trigger] self.ok_at(i) by {
                assert(uf_ok(old_parent, self.rank@, self.rep@, self.max_rank@, n, i));
                assert(uf_ok(old_parent, self.rank@, self.rep@, self.max_rank@, n, self.rep@[i]));
                if i != k {
                    assert(self.parent@[i] == old_parent[i]);
                }
            }
            k = p;
        }
        assert forall|i: int| 0 <= i < self.keys@.len() && self.keys@[i] == key implies self.rep@[i]
            == k by {
            assert(self.ok_at(k as int));
            if i != idx {
                assert(self.keys@[i] != self.keys@[idx as int]) by {
                    if i < idx {
                        assert(distinct_columns(self.keys@));
                    }
                }
            }
        }
        k
    }

    /// Merges the sets of `a` and `b` (adding either as a new singleton first when absent).
    fn union(&mut self, a: ColumnKey, b: ColumnKey)
        requires
            old(self).wf(),
        ensures
            final(self).wf(),
            final(self).keys@ == add_key(add_key(old(self).keys@, a), b),
            forall|i: int, j: int|
                0 <= i < final(self).keys@.len() && 0 <= j < final(self).keys@.len() ==> ((
                final(self).rep@[i] == final(self).rep@[j]) <==> merged_same(
                    old(self).rep@,
                    old(self).keys@.len() as int,
                    final(self).keys@,
                    a,
                    b,
                    i,
                    j,
                )),
    {
        let ghost n0 = self.keys@.len() as int;
        let ghost r0 = self.rep@;
        let ra = self.find_index(a);
        let ghost n1 = self.keys@.len() as int;
        let ghost keys1 = self.keys@;
        let ghost rep1 = self.rep@;
        proof {
            lemma_add_key(old(self).keys@, a);
        }
        let ghost ia = key_pos(keys1, a);
        assert(0 <= ia < n1 && keys1[ia] == a);
        assert(rep1[ia] == ra);
        let rb = self.find_index(b);
        let ghost keys = self.keys@;
        proof {
            lemma_add_key(keys1, b);
            assert(keys[ia] == a);
            lemma_key_pos_unique(keys, ia);
        }
        let ghost ib = key_pos(keys, b);
        assert(0 <= ib < keys.len() && keys[ib] == b);
        assert(key_pos(keys, a) == ia);
        assert forall|t: int| 0 <= t < keys.len() implies self.rep@[t] == extended_rep(r0, n0, t) by {
            if t < n1 {
                assert(rep1[t] == extended_rep(r0, n0, t));
            }
        }
        assert(self.rep@[ia] == ra);
        assert(self.rep@[ib] == rb);
        if ra != rb {
            let ghost rep2 = self.rep@;
            let ghost rank2 = self.rank@;
            let ghost parent2 = self.parent@;
            let ghost mr2 = self.max_rank@;
            let ghost n = self.keys@.len() as int;
            assert(forall|i: int|
                0 <= i < n ==> #[trigger] uf_ok(parent2, rank2, rep2, mr2, n, i)) by {
                assert forall|i: int| 0 <= i < n implies #[trigger] uf_ok(parent2, rank2, rep2, mr2, n, i) by {
                    assert(self.ok_at(i));
                }
            }
            assert(uf_ok(parent2, rank2, rep2, mr2, n, ra as int));
            assert(uf_ok(parent2, rank2, rep2, mr2, n, rb as int));
            assert(parent2[ra as int] == ra && parent2[rb as int] == rb) by {
                assert(uf_ok(parent2, rank2, rep2, mr2, n, ia));
                assert(uf_ok(parent2, rank2, rep2, mr2, n, ib));
            }
            self.parent.set(ra, rb);
            let ghost new_rank: nat = if rank2[rb as int] > rank2[ra as int] {
                rank2[rb as int]
            } else {
                rank2[ra as int] + 1
            };
            self.rank = Ghost(rank2.update(rb as int, new_rank));
            self.max_rank = Ghost(if new_rank > mr2 { new_rank } else { mr2 });
            self.rep = Ghost(Seq::new(n as nat, |t: int| if rep2[t] == ra { rb as int } else { rep2[t] }));
            assert forall|i: int| 0 <= i < n implies #[trigger] self.ok_at(i) by {
                let pi = parent2[i] as int;
                assert(uf_ok(parent2, rank2, rep2, mr2, n, i));
                assert(uf_ok(parent2, rank2, rep2, mr2, n, rep2[i]));
                assert(uf_ok(parent2, rank2, rep2, mr2, n, pi));
                if i == ra {
                } else if i == rb {
                    assert(pi == i);
                } else {
                    assert(self.parent@[i] == parent2[i]);
                    assert(rep2[i] != ra ==> self.parent@[rep2[i]] == parent2[rep2[i]]);
                }
            }
        }
        assert forall|i: int, j: int|
            0 <= i < self.keys@.len() && 0 <= j < self.keys@.len() implies ((self.rep@[i]
            == self.rep@[j]) <==> merged_same(r0, n0, self.keys@, a, b, i, j)) by {}
    }
}

pub proof fn lemma_add_key(s: Seq<ColumnKey>, k: ColumnKey)
    ensures
        add_key(s, k).contains(k),
        add_key(s, k).len() >= s.len(),
        forall|i: int| 0 <= i < s.len() ==> add_key(s, k)[i] == s[i],
        distinct_columns(s) ==> distinct_columns(add_key(s, k)),
{
    if !s.contains(k) {
        assert(s.push(k)[s.len() as int] == k);
        assert forall|i: int, j: int| distinct_columns(s) && 0 <= i < j < s.push(k).len() implies s.push(k)[i] != s.push(k)[j] by {
            if j == s.len() {
                assert(s[i] != k);
            }
        }
    }
}

pub proof fn lemma_key_pos_unique(s: Seq<ColumnKey>, i: int)
    requires
        distinct_columns(s),
        0 <= i < s.len(),
    ensures
        key_pos(s, s[i]) == i,
{
    let j = key_pos(s, s[i]);
    assert(0 <= j < s.len() && s[j] == s[i]);
    if j < i {
        assert(s[j] != s[i]);
    } else if j > i {
        assert(s[i] != s[j]);
    }
}

/// Position of column `k` in `s`.
pub open spec fn key_pos(s: Seq<ColumnKey>, k: ColumnKey) -> int {
    choose|t: int| 0 <= t < s.len() && s[t] == k
}

/// After merging the sets of `a` and `b`, indices `i` and `j` are in one set: they were before
/// (new indices being singletons), or one was with `a` and the other with `b`.
pub open spec fn merged_same(
    r0: Seq<int>,
    n0: int,
    keys: Seq<ColumnKey>,
    a: ColumnKey,
    b: ColumnKey,
    i: int,
    j: int,
) -> bool {
    let ra = extended_rep(r0, n0, key_pos(keys, a));
    let rb = extended_rep(r0, n0, key_pos(keys, b));
    let ri = extended_rep(r0, n0, i);
    let rj = extended_rep(r0, n0, j);
    ri == rj || (ri == ra && rj == rb) || (ri == rb && rj == ra)
}


/// Keys and representatives mirror the nets of `conns`: the keys are exactly the routed columns,
/// and two keys share a representative exactly when they are connected.
pub open spec fn reflects(conns: Seq<Connection>, keys: Seq<ColumnKey>, rep: Seq<int>) -> bool {
    &&& rep.len() == keys.len()
    &&& distinct_columns(keys)
    &&& forall|t: int| 0 <= t < keys.len() ==> routed(conns, #[trigger] keys[t])
    &&& forall|k: ColumnKey| routed(conns, k) ==> #[trigger] keys.contains(k)
    &&& forall|t: int| 0 <= t < keys.len() ==> 0 <= #[trigger] rep[t] < keys.len()
    &&& forall|t1: int, t2: int|
        #![trigger rep[t1], rep[t2]]
        0 <= t1 < keys.len() && 0 <= t2 < keys.len() ==> (rep[t1] == rep[t2] <==> connected(
            conns,
            keys[t1],
            keys[t2],
        ))
}

pub proof fn lemma_connected_unrouted(conns: Seq<Connection>, a: ColumnKey, b: ColumnKey)
    requires
        !routed(conns, a),
        connected(conns, a, b),
    ensures
        a == b,
{
    let p = choose|p: Seq<ColumnKey>| #[trigger] is_walk(conns, p) && p[0] == a && p.last() == b;
    if p.len() > 1 {
        let z: int = 0;
        assert(linked(conns, p[z], p[z + 1]));
        lemma_linked_routed(conns, p[z], p[z + 1]);
    }
}

pub proof fn lemma_reflects_skip(conns: Seq<Connection>, n: int, keys: Seq<ColumnKey>, rep: Seq<int>)
    requires
        0 <= n < conns.len(),
        edge_of(conns[n]) is None,
        reflects(conns.take(n), keys, rep),
    ensures
        reflects(conns.take(n + 1), keys, rep),
{
    let c = conns.take(n);
    let c2 = conns.take(n + 1);
    assert forall|k: ColumnKey| routed(c2, k) == routed(c, k) by {
        lemma_routed_prefix(conns, n, k);
    }
    assert forall|t1: int, t2: int|
        0 <= t1 < keys.len() && 0 <= t2 < keys.len() implies (rep[t1] == rep[t2] <==> connected(
        c2,
        keys[t1],
        keys[t2],
    )) by {
        if rep[t1] == rep[t2] {
            lemma_connected_prefix(conns, n, keys[t1], keys[t2]);
        }
        if connected(c2, keys[t1], keys[t2]) {
            let lab = |k: ColumnKey|
                if keys.contains(k) {
                    rep[key_pos(keys, k)]
                } else {
                    -1
                };
            assert forall|a: ColumnKey, b: ColumnKey| #[trigger] linked(c2, a, b) implies lab(a) == lab(b) by {
                lemma_linked_prefix(conns, n, a, b);
                lemma_linked_routed(c, a, b);
                assert(keys.contains(a) && keys.contains(b));
                let pa = key_pos(keys, a);
                let pb = key_pos(keys, b);
                lemma_linked_connected(c, a, b);
                assert(keys[pa] == a && keys[pb] == b);
            }
            let p = choose|p: Seq<ColumnKey>| #[trigger] is_walk(c2, p) && p[0] == keys[t1] && p.last() == keys[t2];
            lemma_walk_label(c2, p, lab);
            assert(keys.contains(keys[t1]) && keys.contains(keys[t2]));
            lemma_key_pos_unique(keys, t1);
            lemma_key_pos_unique(keys, t2);
        }
    }
}

pub proof fn lemma_reflects_edge(
    conns: Seq<Connection>,
    n: int,
    ka: ColumnKey,
    kb: ColumnKey,
    k0: Seq<ColumnKey>,
    r0: Seq<int>,
    k1: Seq<ColumnKey>,
    r1: Seq<int>,
)
    requires
        0 <= n < conns.len(),
        edge_of(conns[n]) == Some((ka, kb)),
        reflects(conns.take(n), k0, r0),
        k1 == add_key(add_key(k0, ka), kb),
        distinct_columns(k1),
        r1.len() == k1.len(),
        forall|t: int| 0 <= t < k1.len() ==> 0 <= #[trigger] r1[t] < k1.len(),
        forall|i: int, j: int|
            0 <= i < k1.len() && 0 <= j < k1.len() ==> ((r1[i] == r1[j]) <==> merged_same(
                r0,
                k0.len() as int,
                k1,
                ka,
                kb,
                i,
                j,
            )),
    ensures
        reflects(conns.take(n + 1), k1, r1),
{
    let c = conns.take(n);
    let c2 = conns.take(n + 1);
    let n0 = k0.len() as int;
    lemma_add_key(k0, ka);
    lemma_add_key(add_key(k0, ka), kb);
    assert forall|i: int| 0 <= i < n0 implies k1[i] == k0[i] by {}
    let ia = key_pos(k1, ka);
    let ib = key_pos(k1, kb);
    assert(k1.contains(ka) && k1.contains(kb));
    assert(0 <= ia < k1.len() && k1[ia] == ka);
    assert(0 <= ib < k1.len() && k1[ib] == kb);
    assert(touches(conns[n], ka) && touches(conns[n], kb));
    // keys are the routed columns
    assert forall|k: ColumnKey| routed(c2, k) <==> (routed(c, k) || k == ka || k == kb) by {
        lemma_routed_prefix(conns, n, k);
    }
    assert forall|t: int| 0 <= t < k1.len() implies routed(c2, #[trigger] k1[t]) by {
        if t < n0 {
            assert(routed(c, k0[t]));
        } else {
            assert(k1[t] == ka || k1[t] == kb);
        }
    }
    assert forall|k: ColumnKey| routed(c2, k) implies #[trigger] k1.contains(k) by {
        if routed(c, k) {
            assert(k0.contains(k));
            let j = choose|j: int| 0 <= j < k0.len() && k0[j] == k;
            assert(k1[j] == k);
        }
    }
    // representatives before merging match connectivity among the first n connections
    let rr = |t: int| extended_rep(r0, n0, t);
    assert forall|t1: int, t2: int|
        0 <= t1 < k1.len() && 0 <= t2 < k1.len() implies (rr(t1) == rr(t2) <==> connected(
        c,
        k1[t1],
        k1[t2],
    )) by {
        if t1 < n0 && t2 < n0 {
            assert(r0[t1] == r0[t2] <==> connected(c, k0[t1], k0[t2]));
        } else {
            if t1 >= n0 {
                assert(!routed(c, k1[t1])) by {
                    if routed(c, k1[t1]) {
                        assert(k0.contains(k1[t1]));
                        let j = choose|j: int| 0 <= j < k0.len() && k0[j] == k1[t1];
                        assert(k1[j] == k1[t1]);
                    }
                }
                if connected(c, k1[t1], k1[t2]) {
                    lemma_connected_unrouted(c, k1[t1], k1[t2]);
                }
                if t1 == t2 {
                    lemma_connected_refl(c, k1[t1]);
                }
                if t2 < n0 {
                    assert(0 <= r0[t2] < n0);
                }
            } else {
                assert(!routed(c, k1[t2])) by {
                    if routed(c, k1[t2]) {
                        assert(k0.contains(k1[t2]));
                        let j = choose|j: int| 0 <= j < k0.len() && k0[j] == k1[t2];
                        assert(k1[j] == k1[t2]);
                    }
                }
                if connected(c, k1[t1], k1[t2]) {
                    lemma_connected_sym(c, k1[t1], k1[t2]);
                    lemma_connected_unrouted(c, k1[t2], k1[t1]);
                }
                assert(0 <= r0[t1] < n0);
            }
        }
    }
    assert(linked(c2, ka, kb)) by {
        assert(c2[n] == conns[n]);
    }
    lemma_linked_connected(c2, ka, kb);
    lemma_connected_sym(c2, ka, kb);
    assert forall|t1: int, t2: int|
        0 <= t1 < k1.len() && 0 <= t2 < k1.len() implies (r1[t1] == r1[t2] <==> connected(
        c2,
        k1[t1],
        k1[t2],
    )) by {
        let x = k1[t1];
        let y = k1[t2];
        if r1[t1] == r1[t2] {
            assert(merged_same(r0, n0, k1, ka, kb, t1, t2));
            if rr(t1) == rr(t2) {
                lemma_connected_prefix(conns, n, x, y);
            } else if rr(t1) == rr(ia) && rr(t2) == rr(ib) {
                lemma_connected_prefix(conns, n, x, ka);
                lemma_connected_prefix(conns, n, kb, y);
                lemma_connected_trans(c2, x, ka, kb);
                lemma_connected_trans(c2, x, kb, y);
            } else {
                assert(rr(t1) == rr(ib) && rr(t2) == rr(ia));
                lemma_connected_prefix(conns, n, x, kb);
                lemma_connected_prefix(conns, n, ka, y);
                lemma_connected_trans(c2, x, kb, ka);
                lemma_connected_trans(c2, x, ka, y);
            }
        }
        if connected(c2, x, y) {
            let lab = |k: ColumnKey|
                if k1.contains(k) {
                    r1[key_pos(k1, k)]
                } else {
                    -1
                };
            assert forall|a: ColumnKey, b: ColumnKey| #[trigger] linked(c2, a, b) implies lab(a) == lab(b) by {
                lemma_linked_prefix(conns, n, a, b);
                lemma_linked_routed(c2, a, b);
                assert(k1.contains(a) && k1.contains(b));
                let pa = key_pos(k1, a);
                let pb = key_pos(k1, b);
                assert(0 <= pa < k1.len() && k1[pa] == a);
                assert(0 <= pb < k1.len() && k1[pb] == b);
                lemma_key_pos_unique(k1, pa);
                lemma_key_pos_unique(k1, pb);
                lemma_key_pos_unique(k1, ia);
                lemma_key_pos_unique(k1, ib);
                if linked(c, a, b) {
                    lemma_linked_connected(c, a, b);
                    assert(connected(c, k1[pa], k1[pb]));
                    assert(rr(pa) == rr(pb));
                } else if edge_of(conns[n]) == Some((a, b)) {
                    assert(pa == ia && pb == ib);
                } else {
                    assert(pa == ib && pb == ia);
                }
                assert(merged_same(r0, n0, k1, ka, kb, pa, pb));
                assert(r1[pa] == r1[pb]);
            }
            let p = choose|p: Seq<ColumnKey>| #[trigger] is_walk(c2, p) && p[0] == x && p.last() == y;
            lemma_walk_label(c2, p, lab);
            assert(k1.contains(x) && k1.contains(y));
            lemma_key_pos_unique(k1, t1);
            lemma_key_pos_unique(k1, t2);
        }
    }
}


/// Columns in strictly ascending order.
pub open spec fn ascending(s: Seq<ColumnKey>) -> bool {
    forall|i: int, j: int| 0 <= i < j < s.len() ==> key_lt(#[trigger] s[i], #[trigger] s[j])
}

/// The given columns in ascending order.
fn sorted_keys(keys: &Vec<ColumnKey>) -> (r: Vec<ColumnKey>)
    requires
        distinct_columns(keys@),
    ensures
        r@.len() == keys@.len(),
        ascending(r@),
        forall|k: ColumnKey| r@.contains(k) <==> keys@.contains(k),
{
    let mut r: Vec<ColumnKey> = Vec::new();
    let mut i: usize = 0;
    while i < keys.len()
        invariant
            i <= keys@.len(),
            distinct_columns(keys@),
            r@.len() == i,
            ascending(r@),
            forall|k: ColumnKey| r@.contains(k) <==> keys@.take(i as int).contains(k),
        decreases keys.len() - i,
    {
        let k = keys[i];
        assert(!r@.contains(k)) by {
            if r@.contains(k) {
                assert(keys@.take(i as int).contains(k));
                let j = choose|j: int| 0 <= j < i && keys@.take(i as int)[j] == k;
                assert(keys@[j] == keys@[i as int]);
            }
        }
        let mut pos: usize = 0;
        while pos < r.len() && !key_less(k, r[pos])
            invariant
                pos <= r@.len(),
                forall|j: int| 0 <= j < pos ==> !key_lt(k, #[trigger] r@[j]),
            decreases r.len() - pos,
        {
            pos = pos + 1;
        }
        let ghost r0 = r@;
        r.insert(pos, k);
        assert forall|a: int, b: int| 0 <= a < b < r@.len() implies key_lt(#[trigger] r@[a], #[trigger] r@[b]) by {
            if a < pos && b == pos {
                assert(!key_lt(k, r0[a]));
                assert(r0[a] != k);
            } else if a == pos && b > pos {
                if pos < r0.len() {
                    assert(key_lt(k, r0[pos as int]));
                    if b - 1 > pos {
                        assert(key_lt(r0[pos as int], r0[b - 1]));
                    }
                }
            } else if a < pos && b > pos {
                assert(key_lt(r0[a], r0[b - 1]));
            } else if a > pos {
                assert(key_lt(r0[a - 1], r0[b - 1]));
            } else {
                assert(key_lt(r0[a], r0[b]));
            }
        }
        assert(keys@.take(i + 1) =~= keys@.take(i as int).push(k));
        assert forall|q: ColumnKey| r@.contains(q) implies #[trigger] keys@.take(i + 1).contains(q) by {
            let j = choose|j: int| 0 <= j < r@.len() && r@[j] == q;
            if q == k {
                assert(keys@.take(i + 1)[i as int] == k);
            } else {
                if j < pos {
                    assert(r0[j] == q);
                } else {
                    assert(r0[j - 1] == q);
                }
                assert(r0.contains(q));
                assert(keys@.take(i as int).contains(q));
                let m = choose|m: int| 0 <= m < i && #[trigger] keys@.take(i as int)[m] == q;
                assert(keys@.take(i + 1)[m] == q);
            }
        }
        assert forall|q: ColumnKey| keys@.take(i + 1).contains(q) implies #[trigger] r@.contains(q) by {
            let m = choose|m: int| 0 <= m < i + 1 && #[trigger] keys@.take(i + 1)[m] == q;
            if m == i {
                assert(r@[pos as int] == k);
            } else {
                assert(keys@.take(i as int)[m] == q);
                assert(keys@.take(i as int).contains(q));
                assert(r0.contains(q));
                let j = choose|j: int| 0 <= j < r0.len() && r0[j] == q;
                if j < pos {
                    assert(r@[j] == q);
                } else {
                    assert(r@[j + 1] == q);
                }
            }
        }
        i = i + 1;
    }
    assert(keys@.take(keys@.len() as int) =~= keys@);
    r
}

/// The nets as sequences of columns.
pub open spec fn nets_view(v: Seq<Vec<ColumnKey>>) -> Seq<Seq<ColumnKey>> {
    v.map_values(|n: Vec<ColumnKey>| n@)
}

/// `nets` are the nets of `conns`: each net is the nonempty ascending list of its columns, the
/// columns of all nets are exactly the routed ones, two columns share a net exactly when they are
/// connected, and nets come in ascending order of their smallest column.
pub open spec fn is_net_partition(conns: Seq<Connection>, nets: Seq<Seq<ColumnKey>>) -> bool {
    &&& forall|i: int| 0 <= i < nets.len() ==> #[trigger] nets[i].len() > 0 && ascending(nets[i])
    &&& forall|i: int, a: int|
        0 <= i < nets.len() && 0 <= a < nets[i].len() ==> routed(conns, #[trigger] nets[i][a])
    &&& forall|k: ColumnKey|
        routed(conns, k) ==> exists|i: int| 0 <= i < nets.len() && #[trigger] nets[i].contains(k)
    &&& forall|i: int, a: int, j: int, b: int|
        0 <= i < nets.len() && 0 <= a < nets[i].len() && 0 <= j < nets.len() && 0 <= b
            < nets[j].len() ==> (i == j <==> connected(conns, #[trigger] nets[i][a], #[trigger] nets[j][b]))
    &&& forall|i: int, j: int|
        0 <= i < j < nets.len() ==> key_lt(#[trigger] nets[i][0], #[trigger] nets[j][0])
}

/// Labels `lab` over the ascending routed columns `sk` group exactly the connected columns.
pub open spec fn labels_nets(conns: Seq<Connection>, sk: Seq<ColumnKey>, lab: Seq<usize>) -> bool {
    &&& lab.len() == sk.len()
    &&& ascending(sk)
    &&& forall|t: int| 0 <= t < sk.len() ==> routed(conns, #[trigger] sk[t])
    &&& forall|k: ColumnKey| routed(conns, k) ==> #[trigger] sk.contains(k)
    &&& forall|t1: int, t2: int|
        #![trigger lab[t1], lab[t2]]
        0 <= t1 < sk.len() && 0 <= t2 < sk.len() ==> (lab[t1] == lab[t2] <==> connected(
            conns,
            sk[t1],
            sk[t2],
        ))
}

/// Compute nets from connections using union-find.
/// Nets are sorted by canonical key (min ColumnKey in each net) for stable indices when adding
/// connections; each net lists its columns in ascending order.
fn compute_nets(connections: &[Connection]) -> (nets: Vec<Vec<ColumnKey>>)
    ensures
        is_net_partition(connections@, nets_view(nets@)),
{
    let mut uf = UnionFind::new();
    let mut i: usize = 0;
    while i < connections.len()
        invariant
            i <= connections@.len(),
            uf.wf(),
            reflects(connections@.take(i as int), uf.keys@, uf.rep@),
        decreases connections.len() - i,
    {
        let c = connections[i];
        proof {
            assert(c == connections@[i as int]);
        }
        match (pad_to_column(&c.a), pad_to_column(&c.b)) {
            (Some(ka), Some(kb)) => {
                let ghost k0 = uf.keys@;
                let ghost r0 = uf.rep@;
                uf.union(ka, kb);
                proof {
                    assert forall|t: int| 0 <= t < uf.keys@.len() implies 0 <= #[trigger] uf.rep@[t]
                        < uf.keys@.len() by {
                        assert(uf.ok_at(t));
                    }
                    lemma_reflects_edge(connections@, i as int, ka, kb, k0, r0, uf.keys@, uf.rep@);
                }
            },
            _ => {
                proof {
                    lemma_reflects_skip(connections@, i as int, uf.keys@, uf.rep@);
                }
            },
        }
        i = i + 1;
    }
    proof {
        assert(connections@.take(connections@.len() as int) =~= connections@);
    }
    let ghost conns = connections@;
    let ghost keys0 = uf.keys@;
    let ghost rep0 = uf.rep@;
    let sk = sorted_keys(&uf.keys);
    let mut roots: Vec<usize> = Vec::new();
    let ghost mut pos: Seq<int> = Seq::empty();
    let mut s: usize = 0;
    while s < sk.len()
        invariant
            uf.wf(),
            uf.keys@ == keys0,
            uf.rep@ == rep0,
            reflects(conns, keys0, rep0),
            sk@.len() == keys0.len(),
            forall|k: ColumnKey| sk@.contains(k) <==> keys0.contains(k),
            s <= sk@.len(),
            roots@.len() == s,
            pos.len() == s,
            forall|t: int|
                0 <= t < s ==> 0 <= #[trigger] pos[t] < keys0.len() && keys0[pos[t]] == sk@[t]
                    && roots@[t] as int == rep0[pos[t]],
        decreases sk.len() - s,
    {
        let k = sk[s];
        proof {
            assert(sk@.contains(k));
            assert(keys0.contains(k));
            assert(add_key(keys0, k) == keys0);
        }
        let r = uf.find_index(k);
        proof {
            assert(uf.rep@ =~= rep0) by {
                assert forall|t: int| 0 <= t < rep0.len() implies uf.rep@[t] == rep0[t] by {}
            }
            let p = key_pos(keys0, k);
            assert(0 <= p < keys0.len() && keys0[p] == k);
            pos = pos.push(p);
        }
        roots.push(r);
        s = s + 1;
    }
    proof {
        lemma_roots_label(conns, keys0, rep0, sk@, roots@, pos);
    }
    group_nets(Ghost(conns), &sk, &roots)
}

proof fn lemma_roots_label(
    conns: Seq<Connection>,
    keys0: Seq<ColumnKey>,
    rep0: Seq<int>,
    sk: Seq<ColumnKey>,
    roots: Seq<usize>,
    pos: Seq<int>,
)
    requires
        reflects(conns, keys0, rep0),
        ascending(sk),
        sk.len() == keys0.len(),
        forall|k: ColumnKey| sk.contains(k) <==> keys0.contains(k),
        roots.len() == sk.len(),
        pos.len() == sk.len(),
        forall|t: int|
            0 <= t < sk.len() ==> 0 <= #[trigger] pos[t] < keys0.len() && keys0[pos[t]] == sk[t]
                && roots[t] as int == rep0[pos[t]],
    ensures
        labels_nets(conns, sk, roots),
{
    assert forall|t: int| 0 <= t < sk.len() implies routed(conns, #[trigger] sk[t]) by {
        assert(routed(conns, keys0[pos[t]]));
    }
    assert forall|k: ColumnKey| routed(conns, k) implies #[trigger] sk.contains(k) by {
        assert(keys0.contains(k));
    }
    assert forall|t1: int, t2: int|
        0 <= t1 < sk.len() && 0 <= t2 < sk.len() implies (roots[t1] == roots[t2] <==> connected(
        conns,
        sk[t1],
        sk[t2],
    )) by {
        let p1 = pos[t1];
        let p2 = pos[t2];
        assert(rep0[p1] == rep0[p2] <==> connected(conns, keys0[p1], keys0[p2]));
    }
}

/// Splits the ascending columns `sk` into nets by their labels: groups numbered by first
/// appearance, each listing its columns in order.
fn group_nets(Ghost(conns): Ghost<Seq<Connection>>, sk: &Vec<ColumnKey>, lab: &Vec<usize>) -> (nets:
    Vec<Vec<ColumnKey>>)
    requires
        labels_nets(conns, sk@, lab@),
    ensures
        is_net_partition(conns, nets_view(nets@)),
{
    let n = sk.len();
    let mut group_labels: Vec<usize> = Vec::new();
    let mut gid: Vec<usize> = Vec::new();
    let ghost mut firsts: Seq<int> = Seq::empty();
    let mut s: usize = 0;
    while s < n
        invariant
            n == sk@.len(),
            labels_nets(conns, sk@, lab@),
            s <= n,
            gid@.len() == s,
            group_labels@.len() == firsts.len(),
            forall|t: int|
                0 <= t < s ==> #[trigger] gid@[t] < group_labels@.len() && group_labels@[gid@[t] as int]
                    == lab@[t],
            forall|g1: int, g2: int|
                0 <= g1 < g2 < group_labels@.len() ==> #[trigger] group_labels@[g1]
                    != #[trigger] group_labels@[g2],
            forall|g: int|
                0 <= g < firsts.len() ==> 0 <= #[trigger] firsts[g] < s && gid@[firsts[g]] == g,
            forall|g: int, t: int|
                #![trigger firsts[g], gid@[t]]
                0 <= g < firsts.len() && 0 <= t < firsts[g] ==> gid@[t] != g,
            forall|g1: int, g2: int|
                0 <= g1 < g2 < firsts.len() ==> #[trigger] firsts[g1] < #[trigger] firsts[g2],
        decreases n - s,
    {
        let r = lab[s];
        let mut g: usize = 0;
        while g < group_labels.len() && group_labels[g] != r
            invariant
                g <= group_labels@.len(),
                forall|h: int| 0 <= h < g ==> group_labels@[h] != r,
            decreases group_labels.len() - g,
        {
            g = g + 1;
        }
        if g == group_labels.len() {
            group_labels.push(r);
            proof {
                firsts = firsts.push(s as int);
            }
        }
        gid.push(g);
        s = s + 1;
    }
    let ng = group_labels.len();
    let mut nets: Vec<Vec<ColumnKey>> = Vec::new();
    let ghost mut idxs: Seq<Seq<int>> = Seq::empty();
    let mut g: usize = 0;
    while g < ng
        invariant
            n == sk@.len(),
            labels_nets(conns, sk@, lab@),
            gid@.len() == n,
            ng == group_labels@.len(),
            ng == firsts.len(),
            forall|t: int| 0 <= t < n ==> #[trigger] gid@[t] < ng && group_labels@[gid@[t] as int] == lab@[t],
            forall|g1: int, g2: int|
                0 <= g1 < g2 < ng ==> #[trigger] group_labels@[g1] != #[trigger] group_labels@[g2],
            forall|h: int| 0 <= h < ng ==> 0 <= #[trigger] firsts[h] < n && gid@[firsts[h]] == h,
            forall|h: int, t: int|
                #![trigger firsts[h], gid@[t]]
                0 <= h < ng && 0 <= t < firsts[h] ==> gid@[t] != h,
            forall|g1: int, g2: int| 0 <= g1 < g2 < ng ==> #[trigger] firsts[g1] < #[trigger] firsts[g2],
            g <= ng,
            nets@.len() == g,
            idxs.len() == g,
            forall|h: int| 0 <= h < g ==> #[trigger] nets@[h]@.len() == idxs[h].len(),
            forall|h: int| 0 <= h < g ==> #[trigger] nets@[h]@.len() > 0 && nets@[h]@[0] == sk@[firsts[h]],
            forall|h: int| 0 <= h < g ==> ascending(#[trigger] nets@[h]@),
            forall|h: int, a: int|
                0 <= h < g && 0 <= a < idxs[h].len() ==> 0 <= #[trigger] idxs[h][a] < n && gid@[idxs[h][a]]
                    == h && nets@[h]@[a] == sk@[idxs[h][a]],
            forall|h: int, t: int|
                0 <= h < g && 0 <= t < n && gid@[t] == h ==> #[trigger] nets@[h]@.contains(sk@[t]),
        decreases ng - g,
    {
        let mut net: Vec<ColumnKey> = Vec::new();
        let ghost mut ix: Seq<int> = Seq::empty();
        let ghost f = firsts[g as int];
        let mut t: usize = 0;
        while t < n
            invariant
                n == sk@.len(),
                ascending(sk@),
                gid@.len() == n,
                0 <= f < n,
                gid@[f] == g,
                forall|u: int| 0 <= u < f ==> #[trigger] gid@[u] != g,
                t <= n,
                net@.len() == ix.len(),
                ascending(net@),
                forall|a: int|
                    0 <= a < ix.len() ==> 0 <= #[trigger] ix[a] < t && gid@[ix[a]] == g && net@[a]
                        == sk@[ix[a]],
                forall|u: int| 0 <= u < t && gid@[u] == g ==> #[trigger] net@.contains(sk@[u]),
                t <= f ==> net@.len() == 0,
                t > f ==> net@.len() > 0 && net@[0] == sk@[f],
            decreases n - t,
        {
            if gid[t] == g {
                let ghost net0 = net@;
                net.push(sk[t]);
                proof {
                    ix = ix.push(t as int);
                    assert forall|a: int, b: int| 0 <= a < b < net@.len() implies key_lt(
                        #[trigger] net@[a],
                        #[trigger] net@[b],
                    ) by {
                        if b == net@.len() - 1 {
                            assert(ix[a] < t);
                            assert(key_lt(sk@[ix[a]], sk@[t as int]));
                        } else {
                            assert(key_lt(net0[a], net0[b]));
                        }
                    }
                    assert forall|u: int| 0 <= u < t + 1 && gid@[u] == g implies #[trigger] net@.contains(
                        sk@[u],
                    ) by {
                        if u == t {
                            assert(net@[net@.len() - 1] == sk@[u]);
                        } else {
                            assert(net0.contains(sk@[u]));
                            let a = choose|a: int| 0 <= a < net0.len() && net0[a] == sk@[u];
                            assert(net@[a] == sk@[u]);
                        }
                    }
                    if t == f {
                        assert(net0.len() == 0);
                    }
                }
            }
            t = t + 1;
        }
        let ghost nets0 = nets@;
        nets.push(net);
        proof {
            idxs = idxs.push(ix);
            assert forall|h: int, t2: int|
                0 <= h < g + 1 && 0 <= t2 < n && gid@[t2] == h implies #[trigger] nets@[h]@.contains(
                sk@[t2],
            ) by {
                if h < g {
                    assert(nets0[h]@.contains(sk@[t2]));
                }
            }
        }
        g = g + 1;
    }
    proof {
        lemma_groups_partition(conns, sk@, lab@, gid@, group_labels@, firsts, idxs, nets_view(nets@));
    }
    nets
}

proof fn lemma_groups_partition(
    conns: Seq<Connection>,
    sk: Seq<ColumnKey>,
    lab: Seq<usize>,
    gid: Seq<usize>,
    group_labels: Seq<usize>,
    firsts: Seq<int>,
    idxs: Seq<Seq<int>>,
    nets: Seq<Seq<ColumnKey>>,
)
    requires
        labels_nets(conns, sk, lab),
        gid.len() == sk.len(),
        group_labels.len() == firsts.len(),
        nets.len() == firsts.len(),
        idxs.len() == firsts.len(),
        forall|t: int|
            0 <= t < sk.len() ==> #[trigger] gid[t] < group_labels.len() && group_labels[gid[t] as int]
                == lab[t],
        forall|g1: int, g2: int|
            0 <= g1 < g2 < group_labels.len() ==> #[trigger] group_labels[g1]
                != #[trigger] group_labels[g2],
        forall|h: int| 0 <= h < firsts.len() ==> 0 <= #[trigger] firsts[h] < sk.len() && gid[firsts[h]] == h,
        forall|g1: int, g2: int| 0 <= g1 < g2 < firsts.len() ==> #[trigger] firsts[g1] < #[trigger] firsts[g2],
        forall|h: int| 0 <= h < nets.len() ==> #[trigger] nets[h].len() == idxs[h].len(),
        forall|h: int| 0 <= h < nets.len() ==> #[trigger] nets[h].len() > 0 && nets[h][0] == sk[firsts[h]],
        forall|h: int| 0 <= h < nets.len() ==> ascending(#[trigger] nets[h]),
        forall|h: int, a: int|
            0 <= h < nets.len() && 0 <= a < idxs[h].len() ==> 0 <= #[trigger] idxs[h][a] < sk.len()
                && gid[idxs[h][a]] == h && nets[h][a] == sk[idxs[h][a]],
        forall|h: int, t: int|
            0 <= h < nets.len() && 0 <= t < sk.len() && gid[t] == h ==> #[trigger] nets[h].contains(sk[t]),
    ensures
        is_net_partition(conns, nets),
{
    assert forall|i: int, a: int| 0 <= i < nets.len() && 0 <= a < nets[i].len() implies routed(
        conns,
        #[trigger] nets[i][a],
    ) by {
        let t = idxs[i][a];
        assert(routed(conns, sk[t]));
    }
    assert forall|k: ColumnKey| routed(conns, k) implies exists|i: int|
        0 <= i < nets.len() && #[trigger] nets[i].contains(k) by {
        assert(sk.contains(k));
        let t = choose|t: int| 0 <= t < sk.len() && sk[t] == k;
        let h = gid[t] as int;
        assert(nets[h].contains(sk[t]));
    }
    assert forall|i: int, a: int, j: int, b: int|
        0 <= i < nets.len() && 0 <= a < nets[i].len() && 0 <= j < nets.len() && 0 <= b
            < nets[j].len() implies (i == j <==> connected(conns, #[trigger] nets[i][a], #[trigger] nets[j][b])) by {
        let t1 = idxs[i][a];
        let t2 = idxs[j][b];
        assert(gid[t1] == i && gid[t2] == j);
        assert(group_labels[gid[t1] as int] == lab[t1]);
        assert(group_labels[gid[t2] as int] == lab[t2]);
        assert(lab[t1] == lab[t2] <==> connected(conns, sk[t1], sk[t2]));
        if i != j {
            if i < j {
                assert(group_labels[i] != group_labels[j]);
            } else {
                assert(group_labels[j] != group_labels[i]);
            }
        }
    }
    assert forall|i: int, j: int| 0 <= i < j < nets.len() implies key_lt(
        #[trigger] nets[i][0],
        #[trigger] nets[j][0],
    ) by {
        assert(firsts[i] < firsts[j]);
        assert(key_lt(sk[firsts[i]], sk[firsts[j]]));
    }
}

/// The row pin that `pins` holds for the canonical key text `key`, if any.
pub open spec fn pin_request(pins: Option<Map<Seq<char>, i32>>, key: Seq<char>) -> Option<int> {
    match pins {
        Some(m) => if m.contains_key(key) {
            Some(m[key] as int)
        } else {
            None
        },
        None => None,
    }
}

/// The map view of optional row pins.
pub open spec fn pins_view(pins: Option<&StrMap<i32>>) -> Option<Map<Seq<char>, i32>> {
    match pins {
        Some(p) => Some(p@),
        None => None,
    }
}

/// The pin request of each net, looked up by the text of its smallest column.
pub open spec fn net_pin_requests(nets: Seq<Seq<ColumnKey>>, pins: Option<Map<Seq<char>, i32>>) -> Seq<
    Option<int>,
> {
    Seq::new(nets.len(), |i: int| pin_request(pins, key_string(nets[i][0])))
}

/// Rows taken by the pins granted among the first `n` requests: a request is granted when its
/// row is in `0..m` and not taken yet.
pub open spec fn pinned_rows(reqs: Seq<Option<int>>, m: int, n: nat) -> Set<int>
    decreases n,
{
    if n == 0 {
        Set::empty()
    } else {
        let u = pinned_rows(reqs, m, (n - 1) as nat);
        match reqs[n - 1] {
            Some(r) => if 0 <= r < m && !u.contains(r) {
                u.insert(r)
            } else {
                u
            },
            None => u,
        }
    }
}

/// The pin request of net `i` is granted.
pub open spec fn pin_granted(reqs: Seq<Option<int>>, m: int, i: int) -> bool {
    match reqs[i] {
        Some(r) => 0 <= r < m && !pinned_rows(reqs, m, i as nat).contains(r),
        None => false,
    }
}

/// The rows of `lo..m` outside `u`, ascending.
pub open spec fn free_rows(u: Set<int>, lo: int, m: int) -> Seq<int>
    decreases m - lo,
{
    if lo >= m {
        Seq::empty()
    } else if u.contains(lo) {
        free_rows(u, lo + 1, m)
    } else {
        seq![lo] + free_rows(u, lo + 1, m)
    }
}

/// How many of the rows `lo..m` are in `u`.
pub open spec fn count_in(u: Set<int>, lo: int, m: int) -> nat
    decreases m - lo,
{
    if lo >= m {
        0
    } else if u.contains(lo) {
        count_in(u, lo + 1, m) + 1
    } else {
        count_in(u, lo + 1, m)
    }
}

/// How many of the first `i` nets have no granted pin.
pub open spec fn unpinned_before(reqs: Seq<Option<int>>, m: int, i: nat) -> nat
    decreases i,
{
    if i == 0 {
        0
    } else {
        unpinned_before(reqs, m, (i - 1) as nat) + if pin_granted(reqs, m, i - 1) {
            0nat
        } else {
            1nat
        }
    }
}

/// The row of net `i`: its pin when granted, else the next free row in ascending order.
pub open spec fn assigned_row(reqs: Seq<Option<int>>, m: int, i: int) -> int {
    if pin_granted(reqs, m, i) {
        reqs[i]->0
    } else {
        free_rows(pinned_rows(reqs, m, reqs.len()), 0, m)[unpinned_before(reqs, m, i as nat) as int]
    }
}

/// The rows of all nets.
pub open spec fn row_plan(reqs: Seq<Option<int>>, m: int) -> Seq<int> {
    Seq::new(reqs.len(), |i: int| assigned_row(reqs, m, i))
}

/// The error for more nets than rows.
pub open spec fn too_many_nets_message(n: nat, m: nat) -> Seq<char> {
    "Too many nets ("@ + decimal(n) + "), max "@ + decimal(m) + " rows available"@
}

proof fn lemma_free_rows(u: Set<int>, lo: int, m: int)
    ensures
        free_rows(u, lo, m).len() + count_in(u, lo, m) == if lo < m {
            m - lo
        } else {
            0
        },
        forall|t: int|
            0 <= t < free_rows(u, lo, m).len() ==> lo <= #[trigger] free_rows(u, lo, m)[t] < m
                && !u.contains(free_rows(u, lo, m)[t]),
        forall|t1: int, t2: int|
            0 <= t1 < t2 < free_rows(u, lo, m).len() ==> #[trigger] free_rows(u, lo, m)[t1]
                < #[trigger] free_rows(u, lo, m)[t2],
    decreases m - lo,
{
    if lo < m {
        lemma_free_rows(u, lo + 1, m);
        let f = free_rows(u, lo + 1, m);
        if !u.contains(lo) {
            let g = seq![lo] + f;
            assert forall|t: int| 0 <= t < g.len() implies lo <= #[trigger] g[t] < m && !u.contains(g[t]) by {
                if t > 0 {
                    assert(g[t] == f[t - 1]);
                }
            }
            assert forall|t1: int, t2: int| 0 <= t1 < t2 < g.len() implies #[trigger] g[t1] < #[trigger] g[t2] by {
                assert(g[t2] == f[t2 - 1]);
                if t1 > 0 {
                    assert(g[t1] == f[t1 - 1]);
                }
            }
        }
    }
}

proof fn lemma_count_insert(u: Set<int>, x: int, lo: int, m: int)
    requires
        !u.contains(x),
    ensures
        count_in(u.insert(x), lo, m) == count_in(u, lo, m) + if lo <= x < m {
            1nat
        } else {
            0nat
        },
    decreases m - lo,
{
    if lo < m {
        lemma_count_insert(u, x, lo + 1, m);
    }
}

proof fn lemma_count_empty(lo: int, m: int)
    ensures
        count_in(Set::empty(), lo, m) == 0,
    decreases m - lo,
{
    if lo < m {
        lemma_count_empty(lo + 1, m);
    }
}

proof fn lemma_pinned_rows(reqs: Seq<Option<int>>, m: int, n: nat)
    requires
        n <= reqs.len(),
    ensures
        count_in(pinned_rows(reqs, m, n), 0, m) + unpinned_before(reqs, m, n) == n,
        forall|r: int| pinned_rows(reqs, m, n).contains(r) ==> 0 <= r < m,
    decreases n,
{
    if n == 0 {
        lemma_count_empty(0, m);
    } else {
        let k = (n - 1) as nat;
        lemma_pinned_rows(reqs, m, k);
        let u = pinned_rows(reqs, m, k);
        assert(unpinned_before(reqs, m, n) == unpinned_before(reqs, m, k) + if pin_granted(
            reqs,
            m,
            k as int,
        ) {
            0nat
        } else {
            1nat
        });
        if pin_granted(reqs, m, k as int) {
            let r = reqs[k as int]->0;
            assert(pinned_rows(reqs, m, n) == u.insert(r));
            lemma_count_insert(u, r, 0, m);
        } else {
            assert(pinned_rows(reqs, m, n) == u);
        }
    }
}

proof fn lemma_pinned_mono(reqs: Seq<Option<int>>, m: int, i: nat, j: nat)
    requires
        i <= j,
    ensures
        pinned_rows(reqs, m, i).subset_of(pinned_rows(reqs, m, j)),
        unpinned_before(reqs, m, i) <= unpinned_before(reqs, m, j),
    decreases j,
{
    if i < j {
        lemma_pinned_mono(reqs, m, i, (j - 1) as nat);
    }
}

/// Every net gets a row of `0..m`, and no two nets share a row, whenever there are no more nets
/// than rows.
pub proof fn lemma_row_plan_valid(reqs: Seq<Option<int>>, m: int)
    requires
        reqs.len() <= m,
    ensures
        forall|i: int| 0 <= i < reqs.len() ==> 0 <= #[trigger] row_plan(reqs, m)[i] < m,
        forall|i: int, j: int|
            0 <= i < j < reqs.len() ==> #[trigger] row_plan(reqs, m)[i] != #[trigger] row_plan(reqs, m)[j],
{
    let n = reqs.len();
    let u = pinned_rows(reqs, m, n);
    let f = free_rows(u, 0, m);
    let plan = row_plan(reqs, m);
    lemma_free_rows(u, 0, m);
    lemma_pinned_rows(reqs, m, n);
    assert forall|i: int| 0 <= i < n implies 0 <= #[trigger] plan[i] < m && (pin_granted(reqs, m, i)
        ==> u.contains(plan[i])) && (!pin_granted(reqs, m, i) ==> plan[i] == f[unpinned_before(
        reqs,
        m,
        i as nat,
    ) as int] && unpinned_before(reqs, m, i as nat) < f.len()) by {
        lemma_pinned_mono(reqs, m, (i + 1) as nat, n);
        if !pin_granted(reqs, m, i) {
            assert(unpinned_before(reqs, m, (i + 1) as nat) == unpinned_before(reqs, m, i as nat) + 1);
        }
    }
    assert forall|i: int, j: int| 0 <= i < j < n implies #[trigger] plan[i] != #[trigger] plan[j] by {
        lemma_pinned_mono(reqs, m, (i + 1) as nat, j as nat);
        if pin_granted(reqs, m, i) && pin_granted(reqs, m, j) {
            assert(pinned_rows(reqs, m, (i + 1) as nat).contains(plan[i]));
        } else if !pin_granted(reqs, m, i) && !pin_granted(reqs, m, j) {
            assert(unpinned_before(reqs, m, (i + 1) as nat) == unpinned_before(reqs, m, i as nat) + 1);
            assert(unpinned_before(reqs, m, i as nat) < unpinned_before(reqs, m, j as nat));
        }
    }
}

/// Whether `v` holds `x`.
pub(crate) fn holds_row(v: &Vec<i32>, x: i32) -> (r: bool)
    ensures
        r == v@.contains(x),
{
    let mut i: usize = 0;
    while i < v.len()
        invariant
            i <= v@.len(),
            forall|j: int| 0 <= j < i ==> v@[j] != x,
        decreases v.len() - i,
    {
        if v[i] == x {
            return true;
        }
        i = i + 1;
    }
    false
}

/// Assign nets to matrix rows. Cross-side nets get the same row on both sides.
/// Returns the row of each net. Fails if too many nets.
/// If net_row_pins is provided, pinned nets go to their rows; unpinned nets fill remaining rows.
fn assign_nets_to_rows(
    matrix_size: i32,
    nets: &Vec<Vec<ColumnKey>>,
    net_row_pins: Option<&StrMap<i32>>,
) -> (r: Result<Vec<i32>, String>)
    requires
        forall|i: int| 0 <= i < nets@.len() ==> #[trigger] nets@[i]@.len() > 0,
        matrix_size >= 0 || nets@.len() == 0,
    ensures
        match r {
            Ok(rows) => !(matrix_size >= 0 && nets@.len() > matrix_size) && rows@.len() == nets@.len()
                && forall|i: int|
                0 <= i < rows@.len() ==> #[trigger] rows@[i] as int == row_plan(
                    net_pin_requests(nets_view(nets@), pins_view(net_row_pins)),
                    matrix_size as int,
                )[i],
            Err(e) => matrix_size >= 0 && nets@.len() > matrix_size && e@ == too_many_nets_message(
                nets@.len(),
                matrix_size as nat,
            ),
        },
{
    let n = nets.len();
    if matrix_size >= 0 && n > matrix_size as usize {
        let mut e = String::from_str("Too many nets (");
        push_decimal(&mut e, n as u64);
        e.append("), max ");
        push_decimal(&mut e, matrix_size as u64);
        e.append(" rows available");
        return Err(e);
    }
    let ghost m = matrix_size as int;
    let ghost reqs = net_pin_requests(nets_view(nets@), pins_view(net_row_pins));
    // First pass: pinned nets take their rows.
    let mut slot: Vec<Option<i32>> = Vec::new();
    let mut used: Vec<i32> = Vec::new();
    let mut i: usize = 0;
    while i < n
        invariant
            n == nets@.len(),
            forall|t: int| 0 <= t < nets@.len() ==> #[trigger] nets@[t]@.len() > 0,
            reqs == net_pin_requests(nets_view(nets@), pins_view(net_row_pins)),
            m == matrix_size,
            i <= n,
            slot@.len() == i,
            forall|j: int|
                0 <= j < i ==> #[trigger] slot@[j] == (if pin_granted(reqs, m, j) {
                    Some(reqs[j]->0 as i32)
                } else {
                    None
                }),
            forall|x: int| #[trigger] pinned_rows(reqs, m, i as nat).contains(x) <==> used@.contains(x as i32)
                && i32::MIN <= x <= i32::MAX,
        decreases n - i,
    {
        let mut granted: Option<i32> = None;
        let canon_str = column_key_to_string(&nets[i][0]);
        let ghost used0 = used@;
        match net_row_pins {
            Some(pins) => {
                match pins.get(canon_str.as_str()) {
                    Some(row) => {
                        let row = *row;
                        if 0 <= row && row < matrix_size && !holds_row(&used, row) {
                            used.push(row);
                            granted = Some(row);
                        }
                    },
                    None => {},
                }
            },
            None => {},
        }
        proof {
            let u0 = pinned_rows(reqs, m, i as nat);
            let u1 = pinned_rows(reqs, m, (i + 1) as nat);
            assert(nets_view(nets@)[i as int] == nets@[i as int]@);
            assert(reqs[i as int] == pin_request(pins_view(net_row_pins), canon_str@));
            match granted {
                Some(row) => {
                    assert(reqs[i as int] == Some(row as int));
                    assert(!u0.contains(row as int));
                    assert(u1 == u0.insert(row as int));
                    assert(used@ == used0.push(row));
                    assert forall|x: int| #[trigger] u1.contains(x) <==> used@.contains(x as i32)
                        && i32::MIN <= x <= i32::MAX by {
                        if used@.contains(x as i32) && i32::MIN <= x <= i32::MAX {
                            let t = choose|t: int| 0 <= t < used@.len() && used@[t] == x as i32;
                            if t < used0.len() {
                                assert(used0[t] == x as i32);
                                assert(used0.contains(x as i32));
                            }
                        }
                        if u0.contains(x) {
                            let t = choose|t: int| 0 <= t < used0.len() && used0[t] == x as i32;
                            assert(used@[t] == x as i32);
                        }
                        if x == row as int {
                            assert(used@[used0.len() as int] == row);
                        }
                    }
                },
                None => {
                    match reqs[i as int] {
                        Some(r) => {
                            if 0 <= r < m {
                                assert(used0.contains(r as i32));
                                assert(u0.contains(r));
                            }
                        },
                        None => {},
                    }
                    assert(u1 == u0);
                    assert(used@ == used0);
                },
            }
            assert(pin_granted(reqs, m, i as int) == (granted is Some));
        }
        slot.push(granted);
        i = i + 1;
    }
    // Second pass: the other nets take the free rows in ascending order.
    let ghost u = pinned_rows(reqs, m, n as nat);
    let ghost f = free_rows(u, 0, m);
    proof {
        if n > 0 {
            lemma_free_rows(u, 0, m);
            lemma_pinned_rows(reqs, m, n as nat);
            assert(free_rows(u, 0, m) == f.skip(0));
        }
    }
    let mut rows: Vec<i32> = Vec::new();
    let mut next: i32 = 0;
    i = 0;
    while i < n
        invariant
            n == nets@.len(),
            reqs.len() == n,
            m == matrix_size,
            u == pinned_rows(reqs, m, n as nat),
            f == free_rows(u, 0, m),
            n > 0 ==> n <= m,
            n > 0 ==> f.len() + count_in(u, 0, m) == m && count_in(u, 0, m) + unpinned_before(reqs, m, n as nat) == n,
            slot@.len() == n,
            forall|j: int|
                0 <= j < n ==> #[trigger] slot@[j] == (if pin_granted(reqs, m, j) {
                    Some(reqs[j]->0 as i32)
                } else {
                    None
                }),
            forall|x: int| #[trigger] u.contains(x) <==> used@.contains(x as i32) && i32::MIN <= x <= i32::MAX,
            i <= n,
            rows@.len() == i,
            forall|j: int| 0 <= j < i ==> #[trigger] rows@[j] as int == row_plan(reqs, m)[j],
            0 <= next,
            n > 0 ==> next <= m,
            n > 0 ==> free_rows(u, next as int, m) == f.skip(unpinned_before(reqs, m, i as nat) as int),
        decreases n - i,
    {
        match slot[i] {
            Some(row) => {
                rows.push(row);
                proof {
                    assert(pin_granted(reqs, m, i as int));
                    assert(unpinned_before(reqs, m, (i + 1) as nat) == unpinned_before(reqs, m, i as nat));
                }
            },
            None => {
                let ghost k = unpinned_before(reqs, m, i as nat) as int;
                proof {
                    assert(!pin_granted(reqs, m, i as int));
                    lemma_pinned_mono(reqs, m, (i + 1) as nat, n as nat);
                    assert(unpinned_before(reqs, m, (i + 1) as nat) == k + 1);
                    assert(k < f.len());
                }
                while next < matrix_size && holds_row(&used, next)
                    invariant
                        0 <= next <= m,
                        m == matrix_size,
                        forall|x: int| #[trigger] u.contains(x) <==> used@.contains(x as i32) && i32::MIN <= x <= i32::MAX,
                        free_rows(u, next as int, m) == f.skip(k),
                        0 <= k < f.len(),
                    decreases matrix_size - next,
                {
                    assert(u.contains(next as int));
                    next = next + 1;
                }
                proof {
                    assert(f.skip(k).len() > 0);
                    assert(next < matrix_size);
                    assert(!u.contains(next as int));
                    assert(free_rows(u, next as int, m) == seq![next as int] + free_rows(u, next + 1, m));
                    assert(f.skip(k)[0] == f[k]);
                    assert(f.skip(k + 1) =~= f.skip(k).drop_first());
                    assert(unpinned_before(reqs, m, (i + 1) as nat) == k + 1);
                }
                rows.push(next);
                next = next + 1;
            },
        }
        i = i + 1;
    }
    Ok(rows)
}

/// A closed jumper: its (side, col, row) position and the index of its net.
pub open spec fn jumper_entry(k: ColumnKey, row: int, ni: int) -> ((ProtoSide, i32, i32), usize) {
    ((k.side, k.col, row as i32), ni as usize)
}

/// The closed jumpers of a routing: for each net in order, one per column (ascending) at the
/// net's row.
pub open spec fn route_entries(nets: Seq<Seq<ColumnKey>>, rows: Seq<int>) -> Seq<
    ((ProtoSide, i32, i32), usize),
>
    decreases nets.len(),
{
    if nets.len() == 0 {
        Seq::empty()
    } else {
        let i = nets.len() - 1;
        route_entries(nets.drop_last(), rows) + nets[i].map_values(
            |k: ColumnKey| jumper_entry(k, rows[i], i),
        )
    }
}

/// The smallest column of each net.
pub open spec fn canonical_keys(nets: Seq<Seq<ColumnKey>>) -> Seq<ColumnKey> {
    Seq::new(nets.len(), |i: int| nets[i][0])
}

/// No jumper position occurs twice.
pub open spec fn distinct_positions(e: Seq<((ProtoSide, i32, i32), usize)>) -> bool {
    forall|t1: int, t2: int| 0 <= t1 < t2 < e.len() ==> #[trigger] e[t1].0 != #[trigger] e[t2].0
}

/// Entry `t` of a routing is the jumper of column `a` of net `i`.
pub proof fn lemma_route_entry(nets: Seq<Seq<ColumnKey>>, rows: Seq<int>, t: int)
    requires
        nets.len() <= usize::MAX,
        0 <= t < route_entries(nets, rows).len(),
    ensures
        exists|i: int, a: int|
            0 <= i < nets.len() && 0 <= a < nets[i].len() && #[trigger] route_entries(nets, rows)[t]
                == jumper_entry(#[trigger] nets[i][a], rows[i], i),
    decreases nets.len(),
{
    let e = route_entries(nets, rows);
    let i = nets.len() - 1;
    let front = route_entries(nets.drop_last(), rows);
    if t < front.len() {
        lemma_route_entry(nets.drop_last(), rows, t);
        let (i2, a2) = choose|i2: int, a2: int|
            0 <= i2 < nets.drop_last().len() && 0 <= a2 < nets.drop_last()[i2].len() && #[trigger] front[t]
                == jumper_entry(#[trigger] nets.drop_last()[i2][a2], rows[i2], i2);
        assert(e[t] == front[t]);
        assert(nets[i2][a2] == nets.drop_last()[i2][a2]);
    } else {
        let a = t - front.len();
        assert(e[t] == jumper_entry(nets[i][a], rows[i], i));
    }
}

proof fn lemma_route_len(nets: Seq<Seq<ColumnKey>>, rows: Seq<int>, j: int)
    requires
        0 <= j <= nets.len(),
    ensures
        route_entries(nets.take(j), rows).len() <= route_entries(nets, rows).len(),
        forall|t: int|
            0 <= t < route_entries(nets.take(j), rows).len() ==> #[trigger] route_entries(nets, rows)[t]
                == route_entries(nets.take(j), rows)[t],
    decreases nets.len(),
{
    if j < nets.len() {
        let d = nets.drop_last();
        assert(nets.take(j) =~= d.take(j));
        lemma_route_len(d, rows, j);
    } else {
        assert(nets.take(j) =~= nets);
    }
}

/// The jumper positions of a routing are distinct when each net lists distinct columns and the
/// nets have distinct rows that fit in `i32`.
pub proof fn lemma_route_distinct(nets: Seq<Seq<ColumnKey>>, rows: Seq<int>)
    requires
        nets.len() <= usize::MAX,
        rows.len() >= nets.len(),
        forall|i: int| 0 <= i < nets.len() ==> ascending(#[trigger] nets[i]),
        forall|i: int| 0 <= i < nets.len() ==> 0 <= #[trigger] rows[i] <= i32::MAX,
        forall|i: int, j: int| 0 <= i < j < nets.len() ==> #[trigger] rows[i] != #[trigger] rows[j],
    ensures
        distinct_positions(route_entries(nets, rows)),
{
    let e = route_entries(nets, rows);
    assert forall|t1: int, t2: int| 0 <= t1 < t2 < e.len() implies #[trigger] e[t1].0 != #[trigger] e[t2].0 by {
        lemma_route_entry(nets, rows, t1);
        lemma_route_entry(nets, rows, t2);
        let (i1, a1) = choose|i: int, a: int|
            0 <= i < nets.len() && 0 <= a < nets[i].len() && #[trigger] e[t1] == jumper_entry(
                #[trigger] nets[i][a],
                rows[i],
                i,
            );
        let (i2, a2) = choose|i: int, a: int|
            0 <= i < nets.len() && 0 <= a < nets[i].len() && #[trigger] e[t2] == jumper_entry(
                #[trigger] nets[i][a],
                rows[i],
                i,
            );
        if i1 != i2 {
            if i1 < i2 {
                assert(rows[i1] != rows[i2]);
            } else {
                assert(rows[i2] != rows[i1]);
            }
        } else {
            lemma_route_order(nets, rows, i1, a1, a2, t1, t2);
        }
    }
}

/// Within one net, entries come in the order of the net's columns.
proof fn lemma_route_order(nets: Seq<Seq<ColumnKey>>, rows: Seq<int>, i: int, a1: int, a2: int, t1: int, t2: int)
    requires
        nets.len() <= usize::MAX,
        0 <= i < nets.len(),
        0 <= a1 < nets[i].len(),
        0 <= a2 < nets[i].len(),
        ascending(nets[i]),
        0 <= t1 < t2 < route_entries(nets, rows).len(),
        route_entries(nets, rows)[t1] == jumper_entry(nets[i][a1], rows[i], i),
        route_entries(nets, rows)[t2] == jumper_entry(nets[i][a2], rows[i], i),
    ensures
        nets[i][a1] != nets[i][a2],
{
    if a1 == a2 {
        lemma_route_index(nets, rows, i, a1, t1);
        lemma_route_index(nets, rows, i, a2, t2);
    } else if a1 < a2 {
        assert(key_lt(nets[i][a1], nets[i][a2]));
    } else {
        assert(key_lt(nets[i][a2], nets[i][a1]));
    }
}

/// The entry for column `a` of net `i` sits at one position: after the entries of the nets
/// before `i`, at offset `a`; no other position holds the same (net, column) pair.
proof fn lemma_route_index(nets: Seq<Seq<ColumnKey>>, rows: Seq<int>, i: int, a: int, t: int)
    requires
        nets.len() <= usize::MAX,
        0 <= i < nets.len(),
        0 <= a < nets[i].len(),
        ascending(nets[i]),
        0 <= t < route_entries(nets, rows).len(),
        route_entries(nets, rows)[t] == jumper_entry(nets[i][a], rows[i], i),
    ensures
        t == route_entries(nets.take(i), rows).len() + a,
    decreases nets.len(),
{
    let last = nets.len() - 1;
    let d = nets.drop_last();
    let front = route_entries(d, rows);
    let e = route_entries(nets, rows);
    if t < front.len() {
        assert(e[t] == front[t]);
        lemma_route_entry(d, rows, t);
        let (i2, a2) = choose|i2: int, a2: int|
            0 <= i2 < d.len() && 0 <= a2 < d[i2].len() && #[trigger] front[t] == jumper_entry(
                #[trigger] d[i2][a2],
                rows[i2],
                i2,
            );
        assert(i2 == i);
        assert(d[i2] == nets[i2]);
        if a2 != a {
            if a2 < a {
                assert(key_lt(nets[i][a2], nets[i][a]));
            } else {
                assert(key_lt(nets[i][a], nets[i][a2]));
            }
        }
        assert(i < last);
        assert(d[i] == nets[i]);
        lemma_route_index(d, rows, i, a, t);
        assert(d.take(i) =~= nets.take(i));
    } else {
        let a2 = t - front.len();
        assert(e[t] == jumper_entry(nets[last][a2], rows[last], last));
        assert(i == last);
        if a2 != a {
            if a2 < a {
                assert(key_lt(nets[i][a2], nets[i][a]));
            } else {
                assert(key_lt(nets[i][a], nets[i][a2]));
            }
        }
        assert(nets.take(i) =~= d);
    }
}

/// Result of autorouting: which solder jumpers should be closed and which net they belong to.
#[derive(Debug)]
pub struct JumperState {
    /// Closed jumpers: ((side, col, row), net index), each position once.
    jumper_net: Vec<((ProtoSide, i32, i32), usize)>,
    /// Canonical key for each net index (for stable color lookup): the minimum column of net i.
    net_canonical_keys: Vec<ColumnKey>,
}

impl JumperState {
    #[verifier::type_invariant]
    spec fn positions_distinct(self) -> bool {
        distinct_positions(self.jumper_net@)
    }

    /// The closed jumpers, in order.
    pub closed spec fn entries(self) -> Seq<((ProtoSide, i32, i32), usize)> {
        self.jumper_net@
    }

    /// The canonical (smallest) column of each net.
    pub closed spec fn canonical(self) -> Seq<ColumnKey> {
        self.net_canonical_keys@
    }

    /// The jumper at `k` is closed.
    pub open spec fn closed_at(self, k: (ProtoSide, i32, i32)) -> bool {
        exists|t: int| 0 <= t < self.entries().len() && #[trigger] self.entries()[t].0 == k
    }

    /// The net of the closed jumper at `k`.
    pub open spec fn net_at(self, k: (ProtoSide, i32, i32)) -> Option<usize> {
        if self.closed_at(k) {
            Some(self.entries()[choose|t: int| 0 <= t < self.entries().len() && #[trigger] self.entries()[t].0 == k].1)
        } else {
            None
        }
    }

    /// No jumper closed.
    pub fn new() -> (js: Self)
        ensures
            js.entries() == Seq::<((ProtoSide, i32, i32), usize)>::empty(),
            js.canonical() == Seq::<ColumnKey>::empty(),
    {
        JumperState { jumper_net: Vec::new(), net_canonical_keys: Vec::new() }
    }

    /// Canonical key of each net: the minimum column of net i.
    pub fn net_canonical_keys(&self) -> (r: &Vec<ColumnKey>)
        ensures
            r@ == self.canonical(),
    {
        &self.net_canonical_keys
    }

    /// Position of the closed jumper at (side, col, row).
    fn position_of(&self, side: ProtoSide, col: i32, row: i32) -> (r: Option<usize>)
        ensures
            match r {
                Some(t) => t < self.entries().len() && self.entries()[t as int].0 == (side, col, row),
                None => !self.closed_at((side, col, row)),
            },
    {
        let mut t: usize = 0;
        while t < self.jumper_net.len()
            invariant
                t <= self.jumper_net@.len(),
                forall|u: int| 0 <= u < t ==> self.jumper_net@[u].0 != (side, col, row),
            decreases self.jumper_net.len() - t,
        {
            let k = self.jumper_net[t].0;
            if k.0 == side && k.1 == col && k.2 == row {
                return Some(t);
            }
            t = t + 1;
        }
        None
    }

    pub fn is_closed(&self, side: ProtoSide, col: i32, row: i32) -> (r: bool)
        ensures
            r == self.closed_at((side, col, row)),
    {
        self.position_of(side, col, row).is_some()
    }

    pub fn net_index(&self, side: ProtoSide, col: i32, row: i32) -> (r: Option<usize>)
        ensures
            r == self.net_at((side, col, row)),
    {
        proof {
            use_type_invariant(self);
        }
        match self.position_of(side, col, row) {
            Some(t) => {
                proof {
                    let k = (side, col, row);
                    let c = choose|u: int| 0 <= u < self.entries().len() && #[trigger] self.entries()[u].0 == k;
                    if c != t {
                        if c < t {
                            assert(self.jumper_net@[c].0 != self.jumper_net@[t as int].0);
                        } else {
                            assert(self.jumper_net@[t as int].0 != self.jumper_net@[c].0);
                        }
                    }
                }
                Some(self.jumper_net[t].1)
            },
            None => None,
        }
    }

    /// `row` is the lowest row of `0..m` where column (side, col) has a closed jumper.
    pub open spec fn lowest_closed_row(self, side: ProtoSide, col: i32, m: int, row: int) -> bool {
        0 <= row < m && self.closed_at((side, col, row as i32)) && forall|q: int|
            0 <= q < row ==> !#[trigger] self.closed_at((side, col, q as i32))
    }

    /// The net of the closed jumper of column (side, col) in the lowest row of `0..m`.
    pub open spec fn column_net(self, side: ProtoSide, col: i32, m: int) -> Option<usize> {
        if exists|row: int| #[trigger] self.lowest_closed_row(side, col, m, row) {
            self.net_at((side, col, (choose|row: int| #[trigger] self.lowest_closed_row(side, col, m, row)) as i32))
        } else {
            None
        }
    }

    /// `t` is the first closed jumper in row `row`.
    pub open spec fn first_in_row(self, row: i32, t: int) -> bool {
        0 <= t < self.entries().len() && self.entries()[t].0.2 == row && forall|u: int|
            0 <= u < t ==> (#[trigger] self.entries()[u]).0.2 != row
    }

    /// The net of the first closed jumper in row `row`.
    pub open spec fn row_net(self, row: i32) -> Option<usize> {
        if exists|t: int| #[trigger] self.first_in_row(row, t) {
            Some(self.entries()[choose|t: int| #[trigger] self.first_in_row(row, t)].1)
        } else {
            None
        }
    }

    /// Net index for a proto column (pad): the net of its closed jumper in the lowest row of
    /// `0..matrix_size`.
    pub fn net_for_column(&self, side: ProtoSide, col: i32, matrix_size: i32) -> (r: Option<usize>)
        ensures
            r == self.column_net(side, col, matrix_size as int),
            match r {
                Some(ni) => exists|row: int|
                    0 <= row < matrix_size && #[trigger] self.closed_at((side, col, row as i32))
                        && self.net_at((side, col, row as i32)) == Some(ni) && forall|q: int|
                        0 <= q < row ==> !#[trigger] self.closed_at((side, col, q as i32)),
                None => forall|row: int|
                    0 <= row < matrix_size ==> !#[trigger] self.closed_at((side, col, row as i32)),
            },
    {
        proof {
            use_type_invariant(self);
        }
        let mut best: Option<usize> = None;
        let mut t: usize = 0;
        while t < self.jumper_net.len()
            invariant
                t <= self.jumper_net@.len(),
                distinct_positions(self.jumper_net@),
                match best {
                    Some(b) => b < t && ({
                        let k = self.jumper_net@[b as int].0;
                        k.0 == side && k.1 == col && 0 <= k.2 < matrix_size && forall|u: int|
                            0 <= u < t ==> ({
                                let q = #[trigger] self.jumper_net@[u].0;
                                q.0 == side && q.1 == col && 0 <= q.2 < matrix_size ==> k.2 <= q.2
                            })
                    }),
                    None => forall|u: int|
                        0 <= u < t ==> !({
                            let q = #[trigger] self.jumper_net@[u].0;
                            q.0 == side && q.1 == col && 0 <= q.2 < matrix_size
                        }),
                },
            decreases self.jumper_net.len() - t,
        {
            let k = self.jumper_net[t].0;
            if k.0 == side && k.1 == col && 0 <= k.2 && k.2 < matrix_size {
                match best {
                    Some(b) => {
                        if k.2 < self.jumper_net[b].0.2 {
                            best = Some(t);
                        }
                    },
                    None => {
                        best = Some(t);
                    },
                }
            }
            t = t + 1;
        }
        match best {
            Some(b) => {
                let ghost e = self.jumper_net@;
                let ghost row = e[b as int].0.2 as int;
                proof {
                    let kb = e[b as int].0;
                    assert(kb.0 == side && kb.1 == col);
                    assert(kb.2 == row as i32);
                    assert(kb == (side, col, row as i32));
                    assert(self.entries()[b as int].0 == (side, col, row as i32));
                    assert(self.closed_at((side, col, row as i32)));
                    let c = choose|u: int| 0 <= u < e.len() && #[trigger] e[u].0 == (side, col, row as i32);
                    if c != b {
                        if c < b {
                            assert(e[c].0 != e[b as int].0);
                        } else {
                            assert(e[b as int].0 != e[c].0);
                        }
                    }
                    assert forall|q: int| 0 <= q < row implies !#[trigger] self.closed_at((side, col, q as i32)) by {
                        if self.closed_at((side, col, q as i32)) {
                            let u = choose|u: int| 0 <= u < e.len() && #[trigger] e[u].0 == (side, col, q as i32);
                            let qq = e[u].0;
                            assert(qq.2 == q);
                        }
                    }
                    assert(self.lowest_closed_row(side, col, matrix_size as int, row));
                    let w = choose|w: int| #[trigger] self.lowest_closed_row(side, col, matrix_size as int, w);
                    if w < row {
                        assert(!self.closed_at((side, col, w as i32)));
                    } else if w > row {
                        assert(!self.closed_at((side, col, row as i32)));
                    }
                }
                Some(self.jumper_net[b].1)
            },
            None => {
                proof {
                    assert forall|row: int| 0 <= row < matrix_size implies !#[trigger] self.closed_at(
                        (side, col, row as i32),
                    ) by {
                        if self.closed_at((side, col, row as i32)) {
                            let u = choose|u: int|
                                0 <= u < self.jumper_net@.len() && #[trigger] self.jumper_net@[u].0 == (
                                side,
                                col,
                                row as i32,
                            );
                            let qq = self.jumper_net@[u].0;
                            assert(qq.2 == row);
                        }
                    }
                    assert(!exists|row: int| #[trigger] self.lowest_closed_row(side, col, matrix_size as int, row));
                }
                None
            },
        }
    }

    /// Number of closed jumpers.
    pub fn closed_count(&self) -> (r: usize)
        ensures
            r == self.entries().len(),
    {
        self.jumper_net.len()
    }

    /// All columns (side, col) in the given net, each once, in the order of their jumpers. Used
    /// to migrate net names when the canonical key changes.
    pub fn columns_for_net(&self, net_idx: usize) -> (r: Vec<ColumnKey>)
        ensures
            r@ == net_columns(self.entries(), net_idx),
    {
        let mut r: Vec<ColumnKey> = Vec::new();
        let mut t: usize = 0;
        while t < self.jumper_net.len()
            invariant
                t <= self.jumper_net@.len(),
                r@ == net_columns(self.jumper_net@.take(t as int), net_idx),
            decreases self.jumper_net.len() - t,
        {
            let (k, ni) = self.jumper_net[t];
            let c = ColumnKey { side: k.0, col: k.1 };
            proof {
                assert(self.jumper_net@.take(t + 1).drop_last() =~= self.jumper_net@.take(t as int));
            }
            if ni == net_idx && !holds_column(&r, c) {
                r.push(c);
            }
            t = t + 1;
        }
        proof {
            assert(self.jumper_net@.take(self.jumper_net@.len() as int) =~= self.jumper_net@);
        }
        r
    }

    /// Net index for a given matrix row (Y row): the net of the first closed jumper in that row.
    /// Lower and Upper row j are the same logical row.
    pub fn net_for_row(&self, row: i32) -> (r: Option<usize>)
        ensures
            r == self.row_net(row),
            match r {
                Some(ni) => exists|t: int|
                    0 <= t < self.entries().len() && (#[trigger] self.entries()[t]).0.2 == row
                        && self.entries()[t].1 == ni && forall|u: int|
                        0 <= u < t ==> (#[trigger] self.entries()[u]).0.2 != row,
                None => forall|t: int| 0 <= t < self.entries().len() ==> (#[trigger] self.entries()[t]).0.2 != row,
            },
    {
        let mut t: usize = 0;
        while t < self.jumper_net.len()
            invariant
                t <= self.jumper_net@.len(),
                forall|u: int| 0 <= u < t ==> (#[trigger] self.jumper_net@[u]).0.2 != row,
            decreases self.jumper_net.len() - t,
        {
            if self.jumper_net[t].0.2 == row {
                assert(self.entries()[t as int] == self.jumper_net@[t as int]);
                proof {
                    assert(self.first_in_row(row, t as int));
                    let w = choose|w: int| #[trigger] self.first_in_row(row, w);
                    if w < t {
                        assert(self.jumper_net@[w].0.2 != row);
                    } else if w > t {
                        assert(self.entries()[t as int].0.2 != row);
                    }
                }
                return Some(self.jumper_net[t].1);
            }
            t = t + 1;
        }
        None
    }
}

/// The distinct columns of the jumpers of net `ni`, in the order of their first jumper.
pub open spec fn net_columns(e: Seq<((ProtoSide, i32, i32), usize)>, ni: usize) -> Seq<ColumnKey>
    decreases e.len(),
{
    if e.len() == 0 {
        Seq::empty()
    } else {
        let rest = net_columns(e.drop_last(), ni);
        let last = e.last();
        let c = ColumnKey { side: last.0.0, col: last.0.1 };
        if last.1 == ni && !rest.contains(c) {
            rest.push(c)
        } else {
            rest
        }
    }
}

/// Whether `v` holds column `c`.
fn holds_column(v: &Vec<ColumnKey>, c: ColumnKey) -> (r: bool)
    ensures
        r == v@.contains(c),
{
    let mut i: usize = 0;
    while i < v.len()
        invariant
            i <= v@.len(),
            forall|j: int| 0 <= j < i ==> v@[j] != c,
        decreases v.len() - i,
    {
        if v[i] == c {
            return true;
        }
        i = i + 1;
    }
    false
}

impl Default for JumperState {
    fn default() -> (r: Self)
        ensures
            r.entries() == Seq::<((ProtoSide, i32, i32), usize)>::empty(),
            r.canonical() == Seq::<ColumnKey>::empty(),
    {
        JumperState::new()
    }
}

impl JumperStateProvider for JumperState {
    open spec fn jumper_closed(&self, side: ProtoSide, col: i32, row: i32) -> bool {
        self.closed_at((side, col, row))
    }

    fn is_closed(&self, side: ProtoSide, col: i32, row: i32) -> (r: bool)
        ensures
            r == self.closed_at((side, col, row)),
    {
        JumperState::is_closed(self, side, col, row)
    }

    fn net_index(&self, side: ProtoSide, col: i32, row: i32) -> (r: Option<usize>)
        ensures
            r == self.net_at((side, col, row)),
    {
        JumperState::net_index(self, side, col, row)
    }
}

/// Result of autoroute; may contain an error.
#[derive(Debug)]
pub enum AutorouteResult {
    /// The jumper states of a successful routing.
    Routed(JumperState),
    /// Why the nets could not be routed.
    Failed(String),
}

/// The outcome of routing the nets `nets` with pins `pins` on `m` rows: the too-many-nets error
/// when there are more nets than rows, else the jumpers of every column at its net's row, and the
/// smallest column of each net.
pub open spec fn routes(
    r: AutorouteResult,
    nets: Seq<Seq<ColumnKey>>,
    pins: Option<Map<Seq<char>, i32>>,
    m: int,
) -> bool {
    match r {
        AutorouteResult::Routed(js) => !(m >= 0 && nets.len() > m) && js.canonical() == canonical_keys(nets)
            && js.entries() == route_entries(nets, row_plan(net_pin_requests(nets, pins), m)),
        AutorouteResult::Failed(e) => m >= 0 && nets.len() > m && e@ == too_many_nets_message(
            nets.len(),
            m as nat,
        ),
    }
}

/// Run autoroute: connections → nets → row assignment → jumper states.
/// If net_row_pins is provided, pinned nets are assigned to their rows; unpinned nets fill the rest.
pub fn autoroute(
    matrix_size: i32,
    connections: &[Connection],
    net_row_pins: Option<&StrMap<i32>>,
) -> (r: AutorouteResult)
    requires
        matrix_size >= 0 || forall|i: int| 0 <= i < connections@.len() ==> #[trigger] edge_of(connections@[i]) is None,
    ensures
        exists|nets: Seq<Seq<ColumnKey>>|
            is_net_partition(connections@, nets) && routes(r, nets, pins_view(net_row_pins), matrix_size as int),
{
    let nets = compute_nets(connections);
    let ghost nv = nets_view(nets@);
    if nets.len() == 0 {
        let js = JumperState::new();
        let r = AutorouteResult::Routed(js);
        proof {
            assert(route_entries(nv, row_plan(net_pin_requests(nv, pins_view(net_row_pins)), matrix_size as int)) =~= Seq::<((ProtoSide, i32, i32), usize)>::empty());
            assert(canonical_keys(nv) =~= Seq::<ColumnKey>::empty());
            assert(routes(r, nv, pins_view(net_row_pins), matrix_size as int));
        }
        return r;
    }
    proof {
        if matrix_size < 0 {
            assert(nv[0].len() > 0);
            assert(routed(connections@, nv[0][0]));
            let t = choose|t: int| 0 <= t < connections@.len() && #[trigger] touches(connections@[t], nv[0][0]);
            assert(edge_of(connections@[t]) is None);
        }
        assert forall|i: int| 0 <= i < nets@.len() implies #[trigger] nets@[i]@.len() > 0 by {
            assert(nv[i] == nets@[i]@);
        }
    }
    let rows = match assign_nets_to_rows(matrix_size, &nets, net_row_pins) {
        Ok(a) => a,
        Err(e) => {
            let r = AutorouteResult::Failed(e);
            return r;
        },
    };
    let ghost plan = row_plan(net_pin_requests(nv, pins_view(net_row_pins)), matrix_size as int);
    proof {
        lemma_row_plan_valid(net_pin_requests(nv, pins_view(net_row_pins)), matrix_size as int);
    }
    let mut canon: Vec<ColumnKey> = Vec::new();
    let mut entries: Vec<((ProtoSide, i32, i32), usize)> = Vec::new();
    let mut i: usize = 0;
    while i < nets.len()
        invariant
            nv == nets_view(nets@),
            is_net_partition(connections@, nv),
            rows@.len() == nets@.len(),
            forall|j: int| 0 <= j < rows@.len() ==> #[trigger] rows@[j] as int == plan[j],
            plan.len() == nets@.len(),
            i <= nets@.len(),
            canon@ == canonical_keys(nv).take(i as int),
            entries@ == route_entries(nv.take(i as int), plan),
        decreases nets.len() - i,
    {
        let net = &nets[i];
        assert(nv[i as int] == net@);
        canon.push(net[0]);
        let ghost before = entries@;
        let mut a: usize = 0;
        while a < net.len()
            invariant
                nv == nets_view(nets@),
                i < nets@.len(),
                net@ == nv[i as int],
                rows@.len() == nets@.len(),
                rows@[i as int] as int == plan[i as int],
                a <= net@.len(),
                entries@ == before + net@.take(a as int).map_values(
                    |k: ColumnKey| jumper_entry(k, plan[i as int], i as int),
                ),
            decreases net.len() - a,
        {
            let k = net[a];
            entries.push(((k.side, k.col, rows[i]), i));
            proof {
                assert(net@.take(a + 1) =~= net@.take(a as int).push(k));
                assert(entries@ =~= before + net@.take(a + 1).map_values(
                    |k: ColumnKey| jumper_entry(k, plan[i as int], i as int),
                ));
            }
            a = a + 1;
        }
        proof {
            assert(net@.take(net@.len() as int) =~= net@);
            assert(nv.take(i + 1).drop_last() =~= nv.take(i as int));
            assert(canonical_keys(nv).take(i + 1) =~= canonical_keys(nv).take(i as int).push(net@[0]));
        }
        i = i + 1;
    }
    proof {
        assert(nv.take(nv.len() as int) =~= nv);
        assert(canonical_keys(nv).take(nv.len() as int) =~= canonical_keys(nv));
        lemma_route_distinct(nv, plan);
    }
    let js = JumperState { jumper_net: entries, net_canonical_keys: canon };
    AutorouteResult::Routed(js)
}


/// Two ascending column lists with the same columns are equal.
pub proof fn lemma_ascending_unique(s: Seq<ColumnKey>, t: Seq<ColumnKey>)
    requires
        ascending(s),
        ascending(t),
        forall|k: ColumnKey| s.contains(k) <==> t.contains(k),
    ensures
        s == t,
    decreases s.len(),
{
    if s.len() == 0 {
        if t.len() > 0 {
            assert(t.contains(t[0]));
        }
        assert(s =~= t);
    } else {
        assert(s.contains(s[0]));
        assert(t.len() > 0);
        assert(t.contains(t[0]));
        let j = choose|j: int| 0 <= j < t.len() && t[j] == s[0];
        let i = choose|i: int| 0 <= i < s.len() && s[i] == t[0];
        if j > 0 {
            assert(key_lt(t[0], t[j]));
            if i > 0 {
                assert(key_lt(s[0], s[i]));
            }
        }
        assert(s[0] == t[0]);
        let s1 = s.drop_first();
        let t1 = t.drop_first();
        assert forall|k: ColumnKey| s1.contains(k) <==> t1.contains(k) by {
            if s1.contains(k) {
                let a = choose|a: int| 0 <= a < s1.len() && s1[a] == k;
                assert(s[a + 1] == k);
                assert(key_lt(s[0], s[a + 1]));
                assert(s.contains(k));
                let b = choose|b: int| 0 <= b < t.len() && t[b] == k;
                assert(b != 0);
                assert(t1[b - 1] == k);
            }
            if t1.contains(k) {
                let a = choose|a: int| 0 <= a < t1.len() && t1[a] == k;
                assert(t[a + 1] == k);
                assert(key_lt(t[0], t[a + 1]));
                assert(t.contains(k));
                let b = choose|b: int| 0 <= b < s.len() && s[b] == k;
                assert(b != 0);
                assert(s1[b - 1] == k);
            }
        }
        assert forall|a: int, b: int| 0 <= a < b < s1.len() implies key_lt(#[trigger] s1[a], #[trigger] s1[b]) by {
            assert(key_lt(s[a + 1], s[b + 1]));
        }
        assert forall|a: int, b: int| 0 <= a < b < t1.len() implies key_lt(#[trigger] t1[a], #[trigger] t1[b]) by {
            assert(key_lt(t[a + 1], t[b + 1]));
        }
        lemma_ascending_unique(s1, t1);
        assert(s =~= seq![s[0]] + s1);
        assert(t =~= seq![t[0]] + t1);
    }
}

/// Column `k` is the smallest column of its net: it is routed, and no column connected to it
/// comes before it.
pub open spec fn net_minimum(conns: Seq<Connection>, k: ColumnKey) -> bool {
    routed(conns, k) && forall|q: ColumnKey| #[trigger] connected(conns, q, k) && routed(conns, q) ==> !key_lt(q, k)
}

proof fn lemma_partition_minima(conns: Seq<Connection>, nets: Seq<Seq<ColumnKey>>, k: ColumnKey)
    requires
        is_net_partition(conns, nets),
    ensures
        (exists|i: int| 0 <= i < nets.len() && #[trigger] nets[i][0] == k) <==> net_minimum(conns, k),
{
    if exists|i: int| 0 <= i < nets.len() && #[trigger] nets[i][0] == k {
        let i = choose|i: int| 0 <= i < nets.len() && #[trigger] nets[i][0] == k;
        assert(nets[i].len() > 0);
        assert(routed(conns, nets[i][0]));
        assert forall|q: ColumnKey| #[trigger] connected(conns, q, k) && routed(conns, q) implies !key_lt(q, k) by {
            let j = choose|j: int| 0 <= j < nets.len() && #[trigger] nets[j].contains(q);
            let b = choose|b: int| 0 <= b < nets[j].len() && nets[j][b] == q;
            assert(connected(conns, nets[j][b], nets[i][0]));
            assert(j == i);
            if b > 0 {
                assert(key_lt(nets[i][0], nets[i][b]));
            }
        }
    }
    if net_minimum(conns, k) {
        let i = choose|i: int| 0 <= i < nets.len() && #[trigger] nets[i].contains(k);
        let a = choose|a: int| 0 <= a < nets[i].len() && nets[i][a] == k;
        if a > 0 {
            let q = nets[i][0];
            assert(connected(conns, nets[i][0], nets[i][a]));
            assert(routed(conns, q));
            assert(key_lt(nets[i][0], nets[i][a]));
        }
        assert(nets[i][0] == k);
    }
}

proof fn lemma_partition_member(conns: Seq<Connection>, nets: Seq<Seq<ColumnKey>>, i: int, k: ColumnKey)
    requires
        is_net_partition(conns, nets),
        0 <= i < nets.len(),
    ensures
        nets[i].contains(k) <==> routed(conns, k) && connected(conns, k, nets[i][0]),
{
    assert(nets[i].len() > 0);
    if nets[i].contains(k) {
        let a = choose|a: int| 0 <= a < nets[i].len() && nets[i][a] == k;
        assert(connected(conns, nets[i][a], nets[i][0]));
        assert(routed(conns, nets[i][a]));
    }
    if routed(conns, k) && connected(conns, k, nets[i][0]) {
        let j = choose|j: int| 0 <= j < nets.len() && #[trigger] nets[j].contains(k);
        let b = choose|b: int| 0 <= b < nets[j].len() && nets[j][b] == k;
        assert(connected(conns, nets[j][b], nets[i][0]));
        assert(j == i);
    }
}

/// The nets of a list of connections are unique: any two lists meeting `is_net_partition` are
/// equal, so the nets, their order, and the order of columns in each are determined by the
/// connections alone.
pub proof fn lemma_net_partition_unique(conns: Seq<Connection>, a: Seq<Seq<ColumnKey>>, b: Seq<Seq<ColumnKey>>)
    requires
        is_net_partition(conns, a),
        is_net_partition(conns, b),
    ensures
        a == b,
{
    let ma = canonical_keys(a);
    let mb = canonical_keys(b);
    assert forall|k: ColumnKey| ma.contains(k) <==> mb.contains(k) by {
        lemma_partition_minima(conns, a, k);
        lemma_partition_minima(conns, b, k);
        if ma.contains(k) {
            let i = choose|i: int| 0 <= i < ma.len() && ma[i] == k;
            assert(a[i][0] == k);
            let j = choose|j: int| 0 <= j < b.len() && #[trigger] b[j][0] == k;
            assert(mb[j] == k);
        }
        if mb.contains(k) {
            let i = choose|i: int| 0 <= i < mb.len() && mb[i] == k;
            assert(b[i][0] == k);
            let j = choose|j: int| 0 <= j < a.len() && #[trigger] a[j][0] == k;
            assert(ma[j] == k);
        }
    }
    assert forall|x: int, y: int| 0 <= x < y < ma.len() implies key_lt(#[trigger] ma[x], #[trigger] ma[y]) by {
        assert(key_lt(a[x][0], a[y][0]));
    }
    assert forall|x: int, y: int| 0 <= x < y < mb.len() implies key_lt(#[trigger] mb[x], #[trigger] mb[y]) by {
        assert(key_lt(b[x][0], b[y][0]));
    }
    lemma_ascending_unique(ma, mb);
    assert(a.len() == b.len());
    assert forall|i: int| 0 <= i < a.len() implies #[trigger] a[i] == b[i] by {
        assert(ma[i] == mb[i]);
        assert(a[i][0] == b[i][0]);
        assert forall|k: ColumnKey| a[i].contains(k) <==> b[i].contains(k) by {
            lemma_partition_member(conns, a, i, k);
            lemma_partition_member(conns, b, i, k);
        }
        lemma_ascending_unique(a[i], b[i]);
    }
    assert(a =~= b);
}

/// Column `a` of net `i` has its jumper in a routing.
pub proof fn lemma_route_has_entry(nets: Seq<Seq<ColumnKey>>, rows: Seq<int>, i: int, a: int)
    requires
        0 <= i < nets.len(),
        0 <= a < nets[i].len(),
    ensures
        exists|t: int|
            0 <= t < route_entries(nets, rows).len() && #[trigger] route_entries(nets, rows)[t]
                == jumper_entry(nets[i][a], rows[i], i),
    decreases nets.len(),
{
    let last = nets.len() - 1;
    let d = nets.drop_last();
    let front = route_entries(d, rows);
    let e = route_entries(nets, rows);
    if i < last {
        lemma_route_has_entry(d, rows, i, a);
        let t = choose|t: int| 0 <= t < front.len() && #[trigger] front[t] == jumper_entry(d[i][a], rows[i], i);
        assert(e[t] == front[t]);
    } else {
        let t = front.len() + a;
        assert(e[t] == jumper_entry(nets[i][a], rows[i], i));
    }
}

/// The column of a jumper entry.
pub open spec fn entry_column(e: ((ProtoSide, i32, i32), usize)) -> ColumnKey {
    ColumnKey { side: e.0.0, col: e.0.1 }
}

/// What a routing of the nets of `conns` on `m` rows closes: one jumper for each routed column
/// and for no other, at a row of `0..m`, each position once; two closed jumpers share a row
/// exactly when they share a net, which is exactly when their columns are connected; and the
/// canonical key of each net is its smallest column.
pub proof fn lemma_routing_law(
    conns: Seq<Connection>,
    nets: Seq<Seq<ColumnKey>>,
    pins: Option<Map<Seq<char>, i32>>,
    m: int,
)
    requires
        is_net_partition(conns, nets),
        nets.len() <= m <= i32::MAX,
    ensures
        ({
            let e = route_entries(nets, row_plan(net_pin_requests(nets, pins), m));
            let canon = canonical_keys(nets);
            &&& distinct_positions(e)
            &&& forall|t: int|
                0 <= t < e.len() ==> routed(conns, entry_column(#[trigger] e[t])) && 0 <= e[t].0.2 < m
                    && e[t].1 < nets.len()
            &&& forall|k: ColumnKey|
                routed(conns, k) ==> exists|t: int| 0 <= t < e.len() && entry_column(#[trigger] e[t]) == k
            &&& forall|t1: int, t2: int|
                0 <= t1 < e.len() && 0 <= t2 < e.len() ==> ((#[trigger] e[t1]).0.2 == (#[trigger] e[t2]).0.2
                    <==> connected(conns, entry_column(e[t1]), entry_column(e[t2])))
            &&& forall|t1: int, t2: int|
                0 <= t1 < e.len() && 0 <= t2 < e.len() ==> ((#[trigger] e[t1]).1 == (#[trigger] e[t2]).1
                    <==> e[t1].0.2 == e[t2].0.2)
            &&& forall|t: int|
                0 <= t < e.len() ==> canon[(#[trigger] e[t]).1 as int] == entry_column(e[t]) || key_lt(
                    canon[e[t].1 as int],
                    entry_column(e[t]),
                )
        }),
{
    let reqs = net_pin_requests(nets, pins);
    let rows = row_plan(reqs, m);
    let e = route_entries(nets, rows);
    let canon = canonical_keys(nets);
    lemma_row_plan_valid(reqs, m);
    lemma_route_distinct(nets, rows);
    assert forall|t: int| 0 <= t < e.len() implies exists|i: int, a: int|
        0 <= i < nets.len() && 0 <= a < nets[i].len() && #[trigger] e[t] == jumper_entry(
            #[trigger] nets[i][a],
            rows[i],
            i,
        ) by {
        lemma_route_entry(nets, rows, t);
    }
    assert forall|t: int| 0 <= t < e.len() implies routed(conns, entry_column(#[trigger] e[t])) && 0
        <= e[t].0.2 < m && e[t].1 < nets.len() && (canon[e[t].1 as int] == entry_column(e[t]) || key_lt(
        canon[e[t].1 as int],
        entry_column(e[t]),
    )) by {
        let (i, a) = choose|i: int, a: int|
            0 <= i < nets.len() && 0 <= a < nets[i].len() && #[trigger] e[t] == jumper_entry(
                #[trigger] nets[i][a],
                rows[i],
                i,
            );
        assert(entry_column(e[t]) == nets[i][a]);
        assert(0 <= rows[i] < m);
        assert(e[t].1 == i);
        if a > 0 {
            assert(key_lt(nets[i][0], nets[i][a]));
        }
    }
    assert forall|k: ColumnKey| routed(conns, k) implies exists|t: int|
        0 <= t < e.len() && entry_column(#[trigger] e[t]) == k by {
        let i = choose|i: int| 0 <= i < nets.len() && #[trigger] nets[i].contains(k);
        let a = choose|a: int| 0 <= a < nets[i].len() && nets[i][a] == k;
        lemma_route_has_entry(nets, rows, i, a);
        let t = choose|t: int| 0 <= t < e.len() && #[trigger] e[t] == jumper_entry(nets[i][a], rows[i], i);
        assert(entry_column(e[t]) == k);
    }
    assert forall|t1: int, t2: int| 0 <= t1 < e.len() && 0 <= t2 < e.len() implies ((
    #[trigger] e[t1]).0.2 == (#[trigger] e[t2]).0.2 <==> connected(
        conns,
        entry_column(e[t1]),
        entry_column(e[t2]),
    )) && (e[t1].1 == e[t2].1 <==> e[t1].0.2 == e[t2].0.2) by {
        let (i1, a1) = choose|i: int, a: int|
            0 <= i < nets.len() && 0 <= a < nets[i].len() && #[trigger] e[t1] == jumper_entry(
                #[trigger] nets[i][a],
                rows[i],
                i,
            );
        let (i2, a2) = choose|i: int, a: int|
            0 <= i < nets.len() && 0 <= a < nets[i].len() && #[trigger] e[t2] == jumper_entry(
                #[trigger] nets[i][a],
                rows[i],
                i,
            );
        assert(connected(conns, nets[i1][a1], nets[i2][a2]) <==> i1 == i2);
        if i1 != i2 {
            if i1 < i2 {
                assert(rows[i1] != rows[i2]);
            } else {
                assert(rows[i2] != rows[i1]);
            }
        }
    }
}

/// An edge with its ends swapped.
pub open spec fn flipped(e: Option<(ColumnKey, ColumnKey)>) -> Option<(ColumnKey, ColumnKey)> {
    match e {
        Some((x, y)) => Some((y, x)),
        None => None,
    }
}

/// The two lists join the same pairs of columns.
pub open spec fn same_links(c1: Seq<Connection>, c2: Seq<Connection>) -> bool {
    forall|a: ColumnKey, b: ColumnKey|
        #![trigger linked(c1, a, b)]
        #![trigger linked(c2, a, b)]
        linked(c1, a, b) <==> linked(c2, a, b)
}

/// Lists whose pad-to-pad connections join the same pairs of columns, in either direction, have
/// the same links: reordering the connections, swapping the ends of one, or adding or dropping
/// connections with an end that is not a pad keeps the links.
pub proof fn lemma_same_links_by_edges(c1: Seq<Connection>, c2: Seq<Connection>)
    requires
        forall|i: int|
            0 <= i < c1.len() && (#[trigger] edge_of(c1[i])) is Some ==> exists|j: int|
                0 <= j < c2.len() && (#[trigger] edge_of(c2[j]) == edge_of(c1[i]) || edge_of(c2[j]) == flipped(edge_of(c1[i]))),
        forall|j: int|
            0 <= j < c2.len() && (#[trigger] edge_of(c2[j])) is Some ==> exists|i: int|
                0 <= i < c1.len() && (#[trigger] edge_of(c1[i]) == edge_of(c2[j]) || edge_of(c1[i]) == flipped(edge_of(c2[j]))),
    ensures
        same_links(c1, c2),
{
    assert forall|a: ColumnKey, b: ColumnKey| linked(c1, a, b) implies #[trigger] linked(c2, a, b) by {
        let i = choose|i: int|
            0 <= i < c1.len() && (#[trigger] edge_of(c1[i]) == Some((a, b)) || edge_of(c1[i]) == Some((b, a)));
        assert(edge_of(c1[i]) is Some);
        let j = choose|j: int|
            0 <= j < c2.len() && (#[trigger] edge_of(c2[j]) == edge_of(c1[i]) || edge_of(c2[j]) == flipped(edge_of(c1[i])));
        assert(edge_of(c2[j]) == Some((a, b)) || edge_of(c2[j]) == Some((b, a)));
    }
    assert forall|a: ColumnKey, b: ColumnKey| linked(c2, a, b) implies #[trigger] linked(c1, a, b) by {
        let j = choose|j: int|
            0 <= j < c2.len() && (#[trigger] edge_of(c2[j]) == Some((a, b)) || edge_of(c2[j]) == Some((b, a)));
        assert(edge_of(c2[j]) is Some);
        let i = choose|i: int|
            0 <= i < c1.len() && (#[trigger] edge_of(c1[i]) == edge_of(c2[j]) || edge_of(c1[i]) == flipped(edge_of(c2[j])));
        assert(edge_of(c1[i]) == Some((a, b)) || edge_of(c1[i]) == Some((b, a)));
    }
}

proof fn lemma_routed_linked(c: Seq<Connection>, k: ColumnKey)
    ensures
        routed(c, k) <==> exists|b: ColumnKey| #[trigger] linked(c, k, b),
{
    if routed(c, k) {
        let i = choose|i: int| 0 <= i < c.len() && #[trigger] touches(c[i], k);
        let (x, y) = edge_of(c[i]).unwrap();
        if x == k {
            assert(linked(c, k, y));
        } else {
            assert(linked(c, k, x));
        }
    }
    if exists|b: ColumnKey| #[trigger] linked(c, k, b) {
        let b = choose|b: ColumnKey| #[trigger] linked(c, k, b);
        lemma_linked_routed(c, k, b);
    }
}

proof fn lemma_same_links_connected(c1: Seq<Connection>, c2: Seq<Connection>, a: ColumnKey, b: ColumnKey)
    requires
        same_links(c1, c2),
        connected(c1, a, b),
    ensures
        connected(c2, a, b),
{
    let p = choose|p: Seq<ColumnKey>| #[trigger] is_walk(c1, p) && p[0] == a && p.last() == b;
    assert forall|i: int| 0 <= i < p.len() - 1 implies #[trigger] linked(c2, p[i], p[i + 1]) by {
        assert(linked(c1, p[i], p[i + 1]));
    }
    assert(is_walk(c2, p));
}

proof fn lemma_same_links_partition(c1: Seq<Connection>, c2: Seq<Connection>, nets: Seq<Seq<ColumnKey>>)
    requires
        same_links(c1, c2),
        is_net_partition(c1, nets),
    ensures
        is_net_partition(c2, nets),
{
    assert(same_links(c2, c1));
    assert forall|k: ColumnKey| routed(c1, k) <==> routed(c2, k) by {
        lemma_routed_linked(c1, k);
        lemma_routed_linked(c2, k);
        if routed(c1, k) {
            let b = choose|b: ColumnKey| #[trigger] linked(c1, k, b);
            assert(linked(c2, k, b));
        }
        if routed(c2, k) {
            let b = choose|b: ColumnKey| #[trigger] linked(c2, k, b);
            assert(linked(c1, k, b));
        }
    }
    assert forall|x: ColumnKey, y: ColumnKey| connected(c1, x, y) <==> #[trigger] connected(c2, x, y) by {
        if connected(c1, x, y) {
            lemma_same_links_connected(c1, c2, x, y);
        }
        if connected(c2, x, y) {
            lemma_same_links_connected(c2, c1, x, y);
        }
    }
    assert forall|i: int, a: int| 0 <= i < nets.len() && 0 <= a < nets[i].len() implies routed(
        c2,
        #[trigger] nets[i][a],
    ) by {
        assert(routed(c1, nets[i][a]));
    }
    assert forall|k: ColumnKey| routed(c2, k) implies exists|i: int|
        0 <= i < nets.len() && #[trigger] nets[i].contains(k) by {
        assert(routed(c1, k));
    }
    assert forall|i: int, a: int, j: int, b: int|
        0 <= i < nets.len() && 0 <= a < nets[i].len() && 0 <= j < nets.len() && 0 <= b < nets[j].len() implies (i
            == j <==> connected(c2, #[trigger] nets[i][a], #[trigger] nets[j][b])) by {
        assert(i == j <==> connected(c1, nets[i][a], nets[j][b]));
    }
}

/// Routing depends on the connections only through the pairs of columns they join: two lists
/// with the same links (such as one list reordered, with ends swapped, or with connections to a
/// matrix row or a solder jumper added) have the same nets and route alike, both to the same
/// jumpers and canonical keys or both to the same error.
pub proof fn lemma_route_same_links(
    c1: Seq<Connection>,
    c2: Seq<Connection>,
    n1: Seq<Seq<ColumnKey>>,
    n2: Seq<Seq<ColumnKey>>,
    pins: Option<Map<Seq<char>, i32>>,
    m: int,
    r1: AutorouteResult,
    r2: AutorouteResult,
)
    requires
        same_links(c1, c2),
        is_net_partition(c1, n1),
        is_net_partition(c2, n2),
        routes(r1, n1, pins, m),
        routes(r2, n2, pins, m),
    ensures
        n1 == n2,
        match (r1, r2) {
            (AutorouteResult::Routed(j1), AutorouteResult::Routed(j2)) => j1.entries() == j2.entries()
                && j1.canonical() == j2.canonical(),
            (AutorouteResult::Failed(e1), AutorouteResult::Failed(e2)) => e1@ == e2@,
            _ => false,
        },
{
    lemma_same_links_partition(c1, c2, n1);
    lemma_net_partition_unique(c2, n1, n2);
}

/// Entries with another net index add no column to net `ni`.
proof fn lemma_net_columns_other(e: Seq<((ProtoSide, i32, i32), usize)>, f: Seq<((ProtoSide, i32, i32), usize)>, ni: usize)
    requires
        forall|j: int| 0 <= j < f.len() ==> (#[trigger] f[j]).1 != ni,
    ensures
        net_columns(e + f, ni) == net_columns(e, ni),
    decreases f.len(),
{
    if f.len() == 0 {
        assert(e + f =~= e);
    } else {
        let g = f.drop_last();
        assert((e + f).drop_last() =~= e + g);
        assert((e + f).last() == f.last());
        assert(f.last() == f[f.len() - 1]);
        lemma_net_columns_other(e, g, ni);
    }
}

/// Net `ni` has no column among entries of other nets.
proof fn lemma_net_columns_none(e: Seq<((ProtoSide, i32, i32), usize)>, ni: usize)
    requires
        forall|j: int| 0 <= j < e.len() ==> (#[trigger] e[j]).1 != ni,
    ensures
        net_columns(e, ni) == Seq::<ColumnKey>::empty(),
{
    lemma_net_columns_other(Seq::empty(), e, ni);
    assert(Seq::<((ProtoSide, i32, i32), usize)>::empty() + e =~= e);
}

/// After entries of other nets, the block of net `ni` gives back its columns.
proof fn lemma_net_columns_block(
    a: Seq<((ProtoSide, i32, i32), usize)>,
    s: Seq<ColumnKey>,
    row: int,
    ni: int,
)
    requires
        0 <= ni <= usize::MAX,
        forall|j: int| 0 <= j < a.len() ==> (#[trigger] a[j]).1 != ni as usize,
        ascending(s),
    ensures
        net_columns(a + s.map_values(|k: ColumnKey| jumper_entry(k, row, ni)), ni as usize) == s,
    decreases s.len(),
{
    let blk = s.map_values(|k: ColumnKey| jumper_entry(k, row, ni));
    if s.len() == 0 {
        assert(a + blk =~= a);
        lemma_net_columns_none(a, ni as usize);
    } else {
        let b = s.drop_last();
        let bb = b.map_values(|k: ColumnKey| jumper_entry(k, row, ni));
        assert(ascending(b));
        lemma_net_columns_block(a, b, row, ni);
        assert((a + blk).drop_last() =~= a + bb);
        let last = (a + blk).last();
        assert(last == blk[s.len() - 1]);
        assert(last == jumper_entry(s.last(), row, ni));
        assert(!b.contains(s.last())) by {
            if b.contains(s.last()) {
                let j = choose|j: int| 0 <= j < b.len() && b[j] == s.last();
                assert(key_lt(s[j], s[s.len() - 1]));
            }
        }
        assert(ColumnKey { side: last.0.0, col: last.0.1 } == s.last());
        assert(b.push(s.last()) =~= s);
    }
}

/// In a routing, net `i` has exactly its own columns, in ascending order.
proof fn lemma_net_columns_route(nets: Seq<Seq<ColumnKey>>, rows: Seq<int>, i: int)
    requires
        nets.len() <= usize::MAX,
        0 <= i < nets.len(),
        forall|x: int| 0 <= x < nets.len() ==> ascending(#[trigger] nets[x]),
    ensures
        net_columns(route_entries(nets, rows), i as usize) == nets[i],
    decreases nets.len(),
{
    let last = nets.len() - 1;
    let d = nets.drop_last();
    let front = route_entries(d, rows);
    let blk = nets[last].map_values(|k: ColumnKey| jumper_entry(k, rows[last], last));
    assert(route_entries(nets, rows) == front + blk);
    if i == last {
        assert forall|j: int| 0 <= j < front.len() implies (#[trigger] front[j]).1 != i as usize by {
            lemma_route_entry(d, rows, j);
            let (x, y) = choose|x: int, y: int|
                0 <= x < d.len() && 0 <= y < d[x].len() && #[trigger] front[j] == jumper_entry(#[trigger] d[x][y], rows[x], x);
        }
        lemma_net_columns_block(front, nets[last], rows[last], last);
    } else {
        assert forall|j: int| 0 <= j < blk.len() implies (#[trigger] blk[j]).1 != i as usize by {
            assert(blk[j] == jumper_entry(nets[last][j], rows[last], last));
        }
        lemma_net_columns_other(front, blk, i as usize);
        assert forall|x: int| 0 <= x < d.len() implies ascending(#[trigger] d[x]) by {
            assert(d[x] == nets[x]);
        }
        lemma_net_columns_route(d, rows, i);
    }
}

/// Some closed jumper of row `row` comes first.
proof fn lemma_first_in_row_exists(js: JumperState, row: i32, t: int)
    requires
        0 <= t < js.entries().len(),
        js.entries()[t].0.2 == row,
    ensures
        exists|u: int| #[trigger] js.first_in_row(row, u),
    decreases t,
{
    if exists|u: int| 0 <= u < t && (#[trigger] js.entries()[u]).0.2 == row {
        let u = choose|u: int| 0 <= u < t && (#[trigger] js.entries()[u]).0.2 == row;
        lemma_first_in_row_exists(js, row, u);
    } else {
        assert(js.first_in_row(row, t));
    }
}

/// In a routing of the nets of `conns` (as `autoroute` gives it), the columns of net `i` are the
/// net itself, in ascending order; all closed jumpers of one row belong to one net; and the net
/// of a row is the net of any of its jumpers.
pub proof fn lemma_routed_nets(
    conns: Seq<Connection>,
    nets: Seq<Seq<ColumnKey>>,
    pins: Option<Map<Seq<char>, i32>>,
    m: i32,
    js: JumperState,
)
    requires
        m >= 0 || forall|i: int| 0 <= i < conns.len() ==> #[trigger] edge_of(conns[i]) is None,
        is_net_partition(conns, nets),
        routes(AutorouteResult::Routed(js), nets, pins, m as int),
    ensures
        js.canonical().len() == nets.len(),
        forall|i: int| 0 <= i < nets.len() ==> net_columns(js.entries(), i as usize) == #[trigger] nets[i],
        forall|t1: int, t2: int|
            0 <= t1 < js.entries().len() && 0 <= t2 < js.entries().len() && (#[trigger] js.entries()[t1]).0.2
                == (#[trigger] js.entries()[t2]).0.2 ==> js.entries()[t1].1 == js.entries()[t2].1,
        forall|t: int|
            0 <= t < js.entries().len() ==> js.row_net((#[trigger] js.entries()[t]).0.2) == Some(js.entries()[t].1),
{
    let e = js.entries();
    if m < 0 && nets.len() > 0 {
        assert(nets[0].len() > 0);
        assert(routed(conns, nets[0][0]));
        let t = choose|t: int| 0 <= t < conns.len() && #[trigger] touches(conns[t], nets[0][0]);
        assert(edge_of(conns[t]) is None);
    }
    if nets.len() == 0 {
        assert(e =~= Seq::<((ProtoSide, i32, i32), usize)>::empty());
    } else {
        assert(nets.len() <= m);
        lemma_routing_law(conns, nets, pins, m as int);
        let rows = row_plan(net_pin_requests(nets, pins), m as int);
        assert forall|i: int| 0 <= i < nets.len() implies net_columns(e, i as usize) == #[trigger] nets[i] by {
            lemma_net_columns_route(nets, rows, i);
        }
        assert forall|t: int| 0 <= t < e.len() implies js.row_net((#[trigger] e[t]).0.2) == Some(e[t].1) by {
            let row = e[t].0.2;
            lemma_first_in_row_exists(js, row, t);
            let u = choose|u: int| #[trigger] js.first_in_row(row, u);
            assert(e[u].0.2 == e[t].0.2);
        }
    }
}

/// Every row taken by a granted pin was asked for by one of the nets before.
proof fn lemma_pinned_rows_requested(reqs: Seq<Option<int>>, m: int, n: nat, x: int)
    requires
        n <= reqs.len(),
        pinned_rows(reqs, m, n).contains(x),
    ensures
        exists|j: int| 0 <= j < n && #[trigger] reqs[j] == Some(x),
    decreases n,
{
    let u = pinned_rows(reqs, m, (n - 1) as nat);
    if u.contains(x) {
        lemma_pinned_rows_requested(reqs, m, (n - 1) as nat, x);
        let j = choose|j: int| 0 <= j < n - 1 && #[trigger] reqs[j] == Some(x);
    } else {
        assert(reqs[n - 1] == Some(x));
    }
}

/// A row pin is honoured: when the canonical key of net `i` is pinned to a row `r` of
/// `0..matrix_size` (row 0 included) that no earlier net is pinned to, net `i` has jumpers, and
/// every jumper of net `i` is closed on row `r`.
pub proof fn lemma_pin_honoured(
    conns: Seq<Connection>,
    nets: Seq<Seq<ColumnKey>>,
    pins: Map<Seq<char>, i32>,
    m: i32,
    js: JumperState,
    i: int,
)
    requires
        m >= 0 || forall|x: int| 0 <= x < conns.len() ==> #[trigger] edge_of(conns[x]) is None,
        is_net_partition(conns, nets),
        routes(AutorouteResult::Routed(js), nets, Some(pins), m as int),
        0 <= i < nets.len(),
        pins.contains_key(key_string(nets[i][0])),
        0 <= pins[key_string(nets[i][0])] < m,
        forall|j: int|
            0 <= j < i ==> !(pins.contains_key(key_string(#[trigger] nets[j][0])) && pins[key_string(nets[j][0])]
                == pins[key_string(nets[i][0])]),
    ensures
        exists|t: int| 0 <= t < js.entries().len() && (#[trigger] js.entries()[t]).1 == i,
        forall|t: int|
            0 <= t < js.entries().len() && (#[trigger] js.entries()[t]).1 == i ==> js.entries()[t].0.2
                == pins[key_string(nets[i][0])],
{
    let r = pins[key_string(nets[i][0])];
    let reqs = net_pin_requests(nets, Some(pins));
    let rows = row_plan(reqs, m as int);
    let e = js.entries();
    assert(nets.len() <= m);
    assert(reqs[i] == Some(r as int));
    assert(!pinned_rows(reqs, m as int, i as nat).contains(r as int)) by {
        if pinned_rows(reqs, m as int, i as nat).contains(r as int) {
            lemma_pinned_rows_requested(reqs, m as int, i as nat, r as int);
            let j = choose|j: int| 0 <= j < i && #[trigger] reqs[j] == Some(r as int);
            assert(reqs[j] == pin_request(Some(pins), key_string(nets[j][0])));
        }
    }
    assert(pin_granted(reqs, m as int, i));
    assert(rows[i] == r);
    assert(nets[i].len() > 0);
    lemma_route_has_entry(nets, rows, i, 0);
    assert forall|t: int| 0 <= t < e.len() && (#[trigger] e[t]).1 == i implies e[t].0.2 == r by {
        lemma_route_entry(nets, rows, t);
        let (x, a) = choose|x: int, a: int|
            0 <= x < nets.len() && 0 <= a < nets[x].len() && #[trigger] route_entries(nets, rows)[t]
                == jumper_entry(#[trigger] nets[x][a], rows[x], x);
        assert(x == i);
    }
}

} // verus!

//! The dependency graph that schedules the bidegrees of a stem.
//!
//! Each bidegree is TWO nodes, because its two halves have different dependencies:
//!
//! * `Compute(s, t)` does the expensive work. It reads rows `s-1` and `s-2` only, so it needs those
//!   registered -- but of its OWN row it needs only what the image computation reads.
//! * `Register(s, t)` appends to the row's modules and differentials, which are append-only in
//!   increasing degree, so it needs `Register(s, t-1)`.
//!
//! ```text
//! Register(s, t-1)               -> Register(s, t)      appends are in increasing degree
//! Compute(s, t)                  -> Register(s, t)
//! Register(s, same_row[(s, t)])  -> Compute(s, t)       the same-row read, relaxed
//! Register(0, t)                 -> Compute(1, t)       row 1 reads through a full matrix
//! Register(s-1, t-1)             -> Compute(s, t)       the relaxed diagonal, s >= 2
//! ```
use vstd::prelude::*;

verus! {

#[derive(Clone, Copy, PartialEq, Eq, Structural, Debug)]
pub enum Phase {
    Compute,
    Register,
}

#[derive(Clone, Copy, PartialEq, Eq, Structural, Debug)]
pub struct Node {
    pub phase: Phase,
    pub s: i32,
    pub t: i32,
}

impl Node {
    /// The node that computes bidegree `(s, t)` without registering it.
    pub fn compute(s: i32, t: i32) -> (n: Node)
        ensures
            n == (Node { phase: Phase::Compute, s, t }),
    {
        Node { phase: Phase::Compute, s, t }
    }

    /// The bidegree `(s, t)` this node belongs to, discarding its phase.
    pub fn bidegree(&self) -> (b: (i32, i32))
        ensures
            b == (self.s, self.t),
    {
        (self.s, self.t)
    }
}

/// The number of degrees in row `s` of the region `t >= min_degree`, `t - s <= max_n`.
pub open spec fn row_len(min_degree: int, max_n: int, s: int) -> int {
    if max_n + s - min_degree + 1 > 0 {
        max_n + s - min_degree + 1
    } else {
        0
    }
}

/// The number of degrees in the rows before row `s`.
pub open spec fn row_off(min_degree: int, max_n: int, s: int) -> int
    decreases s,
{
    if s <= 0 {
        0
    } else {
        row_off(min_degree, max_n, s - 1) + row_len(min_degree, max_n, s - 1)
    }
}

/// Row offsets never decrease.
pub proof fn lemma_row_off_mono(lo: int, n: int, a: int, b: int)
    requires
        0 <= a <= b,
    ensures
        row_off(lo, n, a) <= row_off(lo, n, b),
    decreases b,
{
    if a < b {
        lemma_row_off_mono(lo, n, a, b - 1);
    }
}

/// A degree of row `s` lies before the start of the next row.
pub proof fn lemma_row_off_next(lo: int, n: int, s: int)
    requires
        0 <= s,
    ensures
        row_off(lo, n, s + 1) == row_off(lo, n, s) + row_len(lo, n, s),
{
}

pub struct Graph {
    min_degree: i32,
    max_s: i32,
    max_n: i32,
    /// Prefix sums of the row lengths, so `idx` is a single add.
    row_offset: Vec<usize>,
    /// `Compute(s, t)` waits for `Register(s, same_row[idx(s, t)])`.
    same_row: Vec<i32>,
    /// The widest `t - same_row[..]`, which bounds the scan in [`Self::successors`].
    max_gap: i32,
    /// Predecessors not yet complete, indexed by slot.
    blocked: Vec<u32>,
    ready: Vec<u32>,
    dispatched: Vec<bool>,
    /// Reused by [`Self::complete`] so releasing successors never allocates.
    succ_buf: Vec<Node>,
}

impl Graph {
    pub closed spec fn lo(self) -> int {
        self.min_degree as int
    }

    pub closed spec fn top_s(self) -> int {
        self.max_s as int
    }

    pub closed spec fn top_n(self) -> int {
        self.max_n as int
    }

    pub closed spec fn gap(self) -> int {
        self.max_gap as int
    }

    pub closed spec fn deps(self) -> Seq<i32> {
        self.same_row@
    }

    pub closed spec fn blocked_view(self) -> Seq<u32> {
        self.blocked@
    }

    pub closed spec fn ready_view(self) -> Seq<u32> {
        self.ready@
    }

    pub closed spec fn dispatched_view(self) -> Seq<bool> {
        self.dispatched@
    }

    /// The number of bidegrees in the region.
    pub open spec fn total(self) -> int {
        row_off(self.lo(), self.top_n(), self.top_s() + 1)
    }

    pub open spec fn in_region_spec(self, s: int, t: int) -> bool {
        0 <= s <= self.top_s() && t >= self.lo() && t - s <= self.top_n()
    }

    pub open spec fn node_in_region(self, n: Node) -> bool {
        self.in_region_spec(n.s as int, n.t as int)
    }

    pub open spec fn idx_spec(self, s: int, t: int) -> int {
        row_off(self.lo(), self.top_n(), s) + (t - self.lo())
    }

    /// The position of a node: the two nodes of a bidegree sit side by side.
    pub open spec fn slot_spec(self, n: Node) -> int {
        2 * self.idx_spec(n.s as int, n.t as int) + if n.phase == Phase::Register {
            1int
        } else {
            0int
        }
    }

    /// The same-row dependency recorded for `(s, t)`.
    pub open spec fn dep(self, s: int, t: int) -> int {
        self.deps()[self.idx_spec(s, t)] as int
    }

    /// The shape of the region, its row offsets and the arithmetic bounds that keep every
    /// computation on it within machine integers.
    pub closed spec fn shape_wf(self) -> bool {
        &&& 0 <= self.max_s < i32::MAX
        &&& self.max_n as int + self.max_s as int <= i32::MAX
        &&& self.min_degree > i32::MIN
        &&& 2 * self.total() <= u32::MAX
        &&& self.row_offset@.len() == self.max_s + 2
        &&& forall|s: int|
            0 <= s < self.row_offset@.len() ==> #[trigger] self.row_offset@[s] as int == row_off(
                self.lo(),
                self.top_n(),
                s,
            )
    }
}


impl Graph {
    /// Every in-region bidegree has an index below the total.
    pub proof fn lemma_idx_bound(self, s: int, t: int)
        requires
            self.in_region_spec(s, t),
        ensures
            row_off(self.lo(), self.top_n(), s) <= self.idx_spec(s, t) < row_off(
                self.lo(),
                self.top_n(),
                s + 1,
            ),
            0 <= self.idx_spec(s, t) < self.total(),
    {
        lemma_row_off_mono(self.lo(), self.top_n(), 0, s);
        lemma_row_off_mono(self.lo(), self.top_n(), s + 1, self.top_s() + 1);
    }

    /// Different in-region nodes sit in different slots.
    pub proof fn lemma_slot_injective(self, a: Node, b: Node)
        requires
            self.node_in_region(a),
            self.node_in_region(b),
            self.slot_spec(a) == self.slot_spec(b),
        ensures
            a == b,
    {
        self.lemma_idx_bound(a.s as int, a.t as int);
        self.lemma_idx_bound(b.s as int, b.t as int);
        if a.s < b.s {
            lemma_row_off_mono(self.lo(), self.top_n(), a.s as int + 1, b.s as int);
        } else if b.s < a.s {
            lemma_row_off_mono(self.lo(), self.top_n(), b.s as int + 1, a.s as int);
        }
    }

    fn in_region(&self, s: i32, t: i32) -> (b: bool)
        ensures
            b == self.in_region_spec(s as int, t as int),
    {
        0 <= s && s <= self.max_s && t >= self.min_degree && (t as i64) - (s as i64)
            <= self.max_n as i64
    }

    fn idx(&self, s: i32, t: i32) -> (i: usize)
        requires
            self.shape_wf(),
            self.in_region_spec(s as int, t as int),
        ensures
            i == self.idx_spec(s as int, t as int),
            i < self.total(),
    {
        proof {
            self.lemma_idx_bound(s as int, t as int);
        }
        self.row_offset[s as usize] + (t - self.min_degree) as usize
    }

    fn slot(&self, n: Node) -> (k: usize)
        requires
            self.shape_wf(),
            self.node_in_region(n),
        ensures
            k == self.slot_spec(n),
            k < 2 * self.total(),
    {
        2 * self.idx(n.s, n.t) + if n.phase == Phase::Register {
            1
        } else {
            0
        }
    }

    fn node_at(&self, slot: usize) -> (n: Node)
        requires
            self.shape_wf(),
            slot < 2 * self.total(),
        ensures
            self.node_in_region(n),
            self.slot_spec(n) == slot,
    {
        let phase = if slot % 2 == 0 {
            Phase::Compute
        } else {
            Phase::Register
        };
        let idx = slot / 2;
        // The row is the last one starting at or before `idx`.
        let mut a: usize = 0;
        let mut b: usize = self.max_s as usize + 1;
        while b - a > 1
            invariant
                self.shape_wf(),
                idx < self.total(),
                0 <= a < b <= self.max_s + 1,
                self.row_offset@[a as int] <= idx,
                self.row_offset@[b as int] > idx,
            decreases b - a,
        {
            let mid = a + (b - a) / 2;
            if self.row_offset[mid] <= idx {
                a = mid;
            } else {
                b = mid;
            }
        }
        proof {
            lemma_row_off_next(self.lo(), self.top_n(), a as int);
        }
        Node { phase, s: a as i32, t: self.min_degree + (idx - self.row_offset[a]) as i32 }
    }
}


/// The compute node of bidegree `(s, t)`.
pub open spec fn compute_node(s: int, t: int) -> Node {
    Node { phase: Phase::Compute, s: s as i32, t: t as i32 }
}

/// The register node of bidegree `(s, t)`.
pub open spec fn register_node(s: int, t: int) -> Node {
    Node { phase: Phase::Register, s: s as i32, t: t as i32 }
}

/// The same-row dependencies of the region `0 <= s <= top_s`, `t >= lo`, `t - s <= top_n` are
/// recorded, each at most `gap` behind its own degree.
pub open spec fn deps_ok(lo: int, top_s: int, top_n: int, gap: int, deps: Seq<i32>) -> bool {
    &&& deps.len() == row_off(lo, top_n, top_s + 1)
    &&& 1 <= gap
    &&& top_n + top_s + gap <= i32::MAX
    &&& forall|s: int, t: int|
        0 <= s <= top_s && t >= lo && t - s <= top_n ==> t - gap <= #[trigger] deps[row_off(
            lo,
            top_n,
            s,
        ) + (t - lo)]
}

impl Graph {
    /// Every same-row dependency lies strictly before its own degree, so that no node waits,
    /// directly or through others, for itself or a later node of its row.
    pub open spec fn backward_deps(self) -> bool {
        forall|s: int, t: int| #[trigger] self.in_region_spec(s, t) ==> self.dep(s, t) < t
    }

    /// The same-row dependencies are recorded for the whole region, each at most `gap` behind
    /// its own degree.
    pub closed spec fn deps_wf(self) -> bool {
        deps_ok(self.lo(), self.top_s(), self.top_n(), self.gap(), self.deps())
    }

    /// The nodes whose completion `n` waits for.
    pub open spec fn pred_spec(self, n: Node) -> Seq<Node> {
        let (s, t) = (n.s as int, n.t as int);
        match n.phase {
            Phase::Register => seq![compute_node(s, t)] + if self.in_region_spec(s, t - 1) {
                seq![register_node(s, t - 1)]
            } else {
                Seq::empty()
            },
            Phase::Compute => (if self.in_region_spec(s, self.dep(s, t)) {
                seq![register_node(s, self.dep(s, t))]
            } else {
                Seq::empty()
            }) + if s == 1 {
                if self.in_region_spec(0, t) {
                    seq![register_node(0, t)]
                } else {
                    Seq::empty()
                }
            } else if s >= 2 && self.in_region_spec(s - 1, t - 1) {
                seq![register_node(s - 1, t - 1)]
            } else {
                Seq::empty()
            },
        }
    }

    /// The compute nodes of row `s`, at most `k` degrees above `t`, whose same-row read reaches
    /// back exactly to `t`.
    pub open spec fn consumers(self, s: int, t: int, k: int) -> Seq<Node>
        decreases k,
    {
        if k <= 0 {
            Seq::empty()
        } else {
            self.consumers(s, t, k - 1) + if self.in_region_spec(s, t + k) && self.dep(s, t + k)
                == t {
                seq![compute_node(s, t + k)]
            } else {
                Seq::empty()
            }
        }
    }

    /// The nodes that `n` blocks, in the order they are released.
    pub open spec fn succ_spec(self, n: Node) -> Seq<Node> {
        let (s, t) = (n.s as int, n.t as int);
        match n.phase {
            Phase::Compute => seq![register_node(s, t)],
            Phase::Register => (if self.in_region_spec(s, t + 1) {
                seq![register_node(s, t + 1)]
            } else {
                Seq::empty()
            }) + self.consumers(s, t, self.gap()) + if s == 0 {
                if self.in_region_spec(1, t) {
                    seq![compute_node(1, t)]
                } else {
                    Seq::empty()
                }
            } else if self.in_region_spec(s + 1, t + 1) {
                seq![compute_node(s + 1, t + 1)]
            } else {
                Seq::empty()
            },
        }
    }

    proof fn lemma_consumers(self, s: int, t: int, k: int, x: Node)
        requires
            self.shape_wf(),
        ensures
            self.consumers(s, t, k).contains(x) <==> (x.phase == Phase::Compute && x.s == s && t
                < x.t <= t + k && self.in_region_spec(s, x.t as int) && self.dep(s, x.t as int) == t),
            forall|i: int|
                0 <= i < self.consumers(s, t, k).len() ==> {
                    let y = #[trigger] self.consumers(s, t, k)[i];
                    y.phase == Phase::Compute && y.s == s as i32 && t < y.t <= t + k
                        && self.in_region_spec(s, y.t as int)
                },
            self.consumers(s, t, k).no_duplicates(),
        decreases k,
    {
        if k > 0 {
            self.lemma_consumers(s, t, k - 1, x);
            let prev = self.consumers(s, t, k - 1);
            let tail = if self.in_region_spec(s, t + k) && self.dep(s, t + k) == t {
                seq![compute_node(s, t + k)]
            } else {
                Seq::empty()
            };
            assert(self.consumers(s, t, k) == prev + tail);
            if prev.contains(x) {
                let i = choose|i: int| 0 <= i < prev.len() && prev[i] == x;
                assert((prev + tail)[i] == x);
            }
            if tail.len() == 1 {
                assert(tail[0] == compute_node(s, t + k));
                if x == compute_node(s, t + k) {
                    assert((prev + tail)[prev.len() as int] == x);
                }
                if (prev + tail).contains(x) && !prev.contains(x) {
                    let i = choose|i: int| 0 <= i < (prev + tail).len() && (prev + tail)[i] == x;
                    if i < prev.len() {
                        assert(prev[i] == x);
                    }
                    assert(i == prev.len());
                    assert(x == compute_node(s, t + k));
                }
                assert forall|i: int, j: int|
                    0 <= i < j < (prev + tail).len() implies (prev + tail)[i] != (prev + tail)[j] by {
                    if j == prev.len() {
                        assert(prev[i] == (prev + tail)[i]);
                    } else {
                        assert(prev[i] == (prev + tail)[i]);
                        assert(prev[j] == (prev + tail)[j]);
                    }
                }
            } else {
                assert(prev + tail =~= prev);
            }
        } else {
            assert(self.consumers(s, t, k) =~= Seq::<Node>::empty());
        }
    }
}


proof fn lemma_concat_contains<A>(a: Seq<A>, b: Seq<A>, x: A)
    ensures
        (a + b).contains(x) <==> a.contains(x) || b.contains(x),
{
    if a.contains(x) {
        let i = choose|i: int| 0 <= i < a.len() && a[i] == x;
        assert((a + b)[i] == x);
    }
    if b.contains(x) {
        let i = choose|i: int| 0 <= i < b.len() && b[i] == x;
        assert((a + b)[a.len() + i] == x);
    }
    if (a + b).contains(x) {
        let i = choose|i: int| 0 <= i < (a + b).len() && (a + b)[i] == x;
        if i < a.len() {
            assert(a[i] == x);
        } else {
            assert(b[i - a.len()] == x);
        }
    }
}

proof fn lemma_single_contains<A>(y: A, x: A)
    ensures
        seq![y].contains(x) <==> x == y,
        !Seq::<A>::empty().contains(x),
{
    if x == y {
        assert(seq![y][0] == x);
    }
}

impl Graph {
    /// The edges agree from both ends: `n` is among the nodes that `m` releases exactly when
    /// `m` is among the nodes that `n` waits for.
    pub proof fn lemma_edges_agree(self, m: Node, n: Node)
        requires
            self.shape_wf(),
            self.deps_wf(),
            self.backward_deps(),
            self.node_in_region(m),
            self.node_in_region(n),
        ensures
            self.succ_spec(m).contains(n) <==> self.pred_spec(n).contains(m),
    {
        let (ms, mt) = (m.s as int, m.t as int);
        let (ns, nt) = (n.s as int, n.t as int);
        self.lemma_idx_bound(ns, nt);
        lemma_single_contains(register_node(ms, mt), n);
        lemma_single_contains(compute_node(ns, nt), m);
        lemma_single_contains(register_node(ns, nt - 1), m);
        lemma_single_contains(register_node(ms, mt + 1), n);
        lemma_single_contains(register_node(ns, self.dep(ns, nt)), m);
        lemma_single_contains(register_node(0, nt), m);
        lemma_single_contains(register_node(ns - 1, nt - 1), m);
        lemma_single_contains(compute_node(1, mt), n);
        lemma_single_contains(compute_node(ms + 1, mt + 1), n);
        self.lemma_consumers(ms, mt, self.gap(), n);
        match m.phase {
            Phase::Compute => {
                match n.phase {
                    Phase::Register => {
                        lemma_concat_contains(
                            seq![compute_node(ns, nt)],
                            if self.in_region_spec(ns, nt - 1) {
                                seq![register_node(ns, nt - 1)]
                            } else {
                                Seq::empty()
                            },
                            m,
                        );
                    },
                    Phase::Compute => {
                        let a = if self.in_region_spec(ns, self.dep(ns, nt)) {
                            seq![register_node(ns, self.dep(ns, nt))]
                        } else {
                            Seq::empty()
                        };
                        let b = if ns == 1 {
                            if self.in_region_spec(0, nt) {
                                seq![register_node(0, nt)]
                            } else {
                                Seq::empty()
                            }
                        } else if ns >= 2 && self.in_region_spec(ns - 1, nt - 1) {
                            seq![register_node(ns - 1, nt - 1)]
                        } else {
                            Seq::empty()
                        };
                        lemma_concat_contains(a, b, m);
                    },
                }
            },
            Phase::Register => {
                let a = if self.in_region_spec(ms, mt + 1) {
                    seq![register_node(ms, mt + 1)]
                } else {
                    Seq::empty()
                };
                let c = self.consumers(ms, mt, self.gap());
                let d = if ms == 0 {
                    if self.in_region_spec(1, mt) {
                        seq![compute_node(1, mt)]
                    } else {
                        Seq::empty()
                    }
                } else if self.in_region_spec(ms + 1, mt + 1) {
                    seq![compute_node(ms + 1, mt + 1)]
                } else {
                    Seq::empty()
                };
                lemma_concat_contains(a + c, d, n);
                lemma_concat_contains(a, c, n);
                match n.phase {
                    Phase::Register => {
                        lemma_concat_contains(
                            seq![compute_node(ns, nt)],
                            if self.in_region_spec(ns, nt - 1) {
                                seq![register_node(ns, nt - 1)]
                            } else {
                                Seq::empty()
                            },
                            m,
                        );
                    },
                    Phase::Compute => {
                        let p = if self.in_region_spec(ns, self.dep(ns, nt)) {
                            seq![register_node(ns, self.dep(ns, nt))]
                        } else {
                            Seq::empty()
                        };
                        let q = if ns == 1 {
                            if self.in_region_spec(0, nt) {
                                seq![register_node(0, nt)]
                            } else {
                                Seq::empty()
                            }
                        } else if ns >= 2 && self.in_region_spec(ns - 1, nt - 1) {
                            seq![register_node(ns - 1, nt - 1)]
                        } else {
                            Seq::empty()
                        };
                        lemma_concat_contains(p, q, m);
                    },
                }
            },
        }
    }
}


impl Graph {
    /// The nodes a node waits for, and those it releases, are in the region and listed once.
    pub proof fn lemma_edges_wf(self, n: Node)
        requires
            self.shape_wf(),
            self.deps_wf(),
            self.node_in_region(n),
        ensures
            forall|i: int|
                0 <= i < self.succ_spec(n).len() ==> self.node_in_region(
                    #[trigger] self.succ_spec(n)[i],
                ),
            self.succ_spec(n).no_duplicates(),
            forall|i: int|
                0 <= i < self.pred_spec(n).len() ==> self.node_in_region(
                    #[trigger] self.pred_spec(n)[i],
                ),
            self.pred_spec(n).no_duplicates(),
    {
        let (s, t) = (n.s as int, n.t as int);
        self.lemma_idx_bound(s, t);
        self.lemma_consumers(s, t, self.gap(), n);
        let c = self.consumers(s, t, self.gap());
        match n.phase {
            Phase::Compute => {},
            Phase::Register => {
                let a = if self.in_region_spec(s, t + 1) {
                    seq![register_node(s, t + 1)]
                } else {
                    Seq::empty()
                };
                let d = if s == 0 {
                    if self.in_region_spec(1, t) {
                        seq![compute_node(1, t)]
                    } else {
                        Seq::empty()
                    }
                } else if self.in_region_spec(s + 1, t + 1) {
                    seq![compute_node(s + 1, t + 1)]
                } else {
                    Seq::empty()
                };
                let sq = a + c + d;
                assert(self.succ_spec(n) == sq);
                assert forall|i: int| 0 <= i < sq.len() implies self.node_in_region(#[trigger] sq[i]) by {
                    if i < a.len() {
                    } else if i < a.len() + c.len() {
                        assert(sq[i] == c[i - a.len()]);
                    } else {
                        assert(sq[i] == d[i - a.len() - c.len()]);
                    }
                }
                assert forall|i: int, j: int| 0 <= i < j < sq.len() implies sq[i] != sq[j] by {
                    if i < a.len() {
                        if j < a.len() + c.len() {
                            assert(sq[j] == c[j - a.len()]);
                        }
                    } else if i < a.len() + c.len() {
                        assert(sq[i] == c[i - a.len()]);
                        if j < a.len() + c.len() {
                            assert(sq[j] == c[j - a.len()]);
                        }
                    }
                }
            },
        }
    }

    fn same_row_dep(&self, s: i32, t: i32) -> (d: i32)
        requires
            self.shape_wf(),
            self.deps_wf(),
            self.in_region_spec(s as int, t as int),
        ensures
            d == self.dep(s as int, t as int),
    {
        self.same_row[self.idx(s, t)]
    }

    fn indegree(&self, n: Node) -> (k: u32)
        requires
            self.shape_wf(),
            self.deps_wf(),
            self.node_in_region(n),
        ensures
            k == self.pred_spec(n).len(),
    {
        let (s, t) = (n.s, n.t);
        match n.phase {
            // Its own compute, plus the row predecessor whose appends must land first.
            Phase::Register => 1 + if self.in_region(s, t - 1) {
                1
            } else {
                0
            },
            Phase::Compute => {
                let mut k: u32 = if self.in_region(s, self.same_row_dep(s, t)) {
                    1
                } else {
                    0
                };
                if s == 1 {
                    k += if self.in_region(0, t) {
                        1
                    } else {
                        0
                    };
                } else if s >= 2 {
                    k += if self.in_region(s - 1, t - 1) {
                        1
                    } else {
                        0
                    };
                }
                k
            },
        }
    }

    /// The nodes `n` blocks, derived from the rules rather than stored.
    fn successors(&self, n: Node, out: &mut Vec<Node>)
        requires
            self.shape_wf(),
            self.deps_wf(),
            self.node_in_region(n),
        ensures
            final(out)@ == self.succ_spec(n),
    {
        out.clear();
        let (s, t) = (n.s, n.t);
        proof {
            self.lemma_idx_bound(s as int, t as int);
        }
        match n.phase {
            Phase::Compute => {
                out.push(Node { phase: Phase::Register, s, t });
            },
            Phase::Register => {
                if self.in_region(s, t + 1) {
                    out.push(Node { phase: Phase::Register, s, t: t + 1 });
                }
                let ghost a = out@;
                // Same-row consumers: every `t'` whose read reaches back exactly to `t`.
                let mut k: i64 = 1;
                while k <= self.max_gap as i64
                    invariant
                        self.shape_wf(),
                        self.deps_wf(),
                        self.node_in_region(n),
                        s == n.s,
                        t == n.t,
                        1 <= k <= self.gap() + 1,
                        out@ == a + self.consumers(s as int, t as int, k - 1),
                    decreases self.gap() + 1 - k,
                {
                    let tp = (t as i64 + k) as i32;
                    if self.in_region(s, tp) && self.same_row_dep(s, tp) == t {
                        out.push(Node { phase: Phase::Compute, s, t: tp });
                    }
                    proof {
                        assert(self.consumers(s as int, t as int, k as int) == self.consumers(
                            s as int,
                            t as int,
                            k - 1,
                        ) + if self.in_region_spec(s as int, t + k) && self.dep(s as int, t + k)
                            == t {
                            seq![compute_node(s as int, t + k)]
                        } else {
                            Seq::empty()
                        });
                    }
                    k += 1;
                }
                if s == 0 {
                    if self.in_region(1, t) {
                        out.push(Node { phase: Phase::Compute, s: 1, t });
                    }
                } else if self.in_region(s + 1, t + 1) {
                    out.push(Node { phase: Phase::Compute, s: s + 1, t: t + 1 });
                }
            },
        }
    }
}


impl Graph {
    /// The graph's invariant: its shape, its recorded dependencies, and the ready queue, which
    /// holds only slots with nothing left to wait for and holds every such slot not yet handed out.
    pub closed spec fn wf(self) -> bool {
        &&& self.shape_wf()
        &&& self.deps_wf()
        &&& self.blocked@.len() == 2 * self.total()
        &&& self.dispatched@.len() == 2 * self.total()
        &&& forall|i: int|
            0 <= i < self.ready@.len() ==> (#[trigger] self.ready@[i]) < 2 * self.total()
                && self.blocked@[self.ready@[i] as int] == 0
        &&& forall|k: int|
            0 <= k < 2 * self.total() && #[trigger] self.blocked@[k] == 0 && !self.dispatched@[k]
                ==> self.ready@.contains(k as u32)
    }

    /// How many predecessors of `n` have not completed yet.
    pub open spec fn blocked_at(self, n: Node) -> int {
        self.blocked_view()[self.slot_spec(n)] as int
    }

    /// Whether `n` has been handed out.
    pub open spec fn dispatched_at(self, n: Node) -> bool {
        self.dispatched_view()[self.slot_spec(n)]
    }

    /// The two graphs have the same region and the same recorded dependencies.
    pub open spec fn same_shape(self, other: Graph) -> bool {
        &&& self.lo() == other.lo()
        &&& self.top_s() == other.top_s()
        &&& self.top_n() == other.top_n()
        &&& self.gap() == other.gap()
        &&& self.deps() == other.deps()
    }

    /// The next node whose dependencies are all complete, or `None` if there is none right
    /// now. A node is handed out at most once, however many predecessors freed it.
    pub fn pop_ready(&mut self) -> (r: Option<Node>)
        requires
            old(self).wf(),
        ensures
            final(self).wf(),
            ({
                let i = top_fresh(
                    old(self).ready_view(),
                    old(self).dispatched_view(),
                    old(self).ready_view().len() as int,
                );
                &&& final(self).ready_view() == old(self).ready_view().subrange(0, if i >= 0 {
                    i
                } else {
                    0
                })
                &&& (r is Some <==> i >= 0)
                &&& r matches Some(n) ==> old(self).slot_spec(n) == old(self).ready_view()[i]
            }),
            final(self).same_shape(*old(self)),
            final(self).blocked_view() == old(self).blocked_view(),
            match r {
                Some(n) => {
                    &&& final(self).node_in_region(n)
                    &&& !old(self).dispatched_at(n)
                    &&& final(self).dispatched_at(n)
                    &&& forall|x: Node|
                        #[trigger] final(self).node_in_region(x) && x != n ==> final(self).dispatched_at(x)
                            == old(self).dispatched_at(x)
                    &&& old(self).blocked_at(n) == 0
                    &&& final(self).dispatched_view() == old(self).dispatched_view().update(
                        old(self).slot_spec(n),
                        true,
                    )
                },
                None => {
                    &&& final(self).dispatched_view() == old(self).dispatched_view()
                    &&& forall|x: Node|
                        final(self).node_in_region(x) ==> !(final(self).blocked_at(x) == 0
                            && !final(self).dispatched_at(x))
                },
            },
    {
        loop
            invariant
                self.wf(),
                self.same_shape(*old(self)),
                self.blocked_view() == old(self).blocked_view(),
                self.dispatched_view() == old(self).dispatched_view(),
                self.ready@.len() <= old(self).ready_view().len(),
                self.ready@ == old(self).ready_view().subrange(0, self.ready@.len() as int),
                top_fresh(old(self).ready_view(), old(self).dispatched_view(), old(self).ready_view().len() as int)
                    == top_fresh(old(self).ready_view(), old(self).dispatched_view(), self.ready@.len() as int),
            decreases self.ready@.len(),
        {
            let ghost before = self.ready@;
            match self.ready.pop() {
                Some(slot) => {
                    proof {
                        assert(before == self.ready@.push(slot));
                        assert(before[before.len() - 1] == slot);
                        assert forall|i: int| 0 <= i < self.ready@.len() implies (#[trigger] self.ready@[i]) < 2 * self.total()
                            && self.blocked@[self.ready@[i] as int] == 0 by {
                            assert(self.ready@[i] == before[i]);
                        }
                    }
                    let slot = slot as usize;
                    if !self.dispatched[slot] {
                        self.dispatched.set(slot, true);
                        let n = self.node_at(slot);
                        proof {
                            assert forall|k: int|
                                0 <= k < 2 * self.total() && #[trigger] self.blocked@[k] == 0
                                    && !self.dispatched@[k] implies self.ready@.contains(k as u32) by {
                                assert(before.contains(k as u32));
                                let i = choose|i: int| 0 <= i < before.len() && before[i] == k as u32;
                                assert(i < self.ready@.len());
                                assert(self.ready@[i] == k as u32);
                            }
                            assert forall|x: Node|
                                #[trigger] self.node_in_region(x) && x != n implies self.dispatched_at(x)
                                    == old(self).dispatched_at(x) by {
                                self.lemma_idx_bound(x.s as int, x.t as int);
                                if self.slot_spec(x) == slot {
                                    self.lemma_slot_injective(x, n);
                                }
                            }
                        }
                        return Some(n);
                    } else {
                        proof {
                            assert forall|k: int|
                                0 <= k < 2 * self.total() && #[trigger] self.blocked@[k] == 0
                                    && !self.dispatched@[k] implies self.ready@.contains(k as u32) by {
                                assert(before.contains(k as u32));
                                let i = choose|i: int| 0 <= i < before.len() && before[i] == k as u32;
                                assert(i < self.ready@.len());
                                assert(self.ready@[i] == k as u32);
                            }
                        }
                    }
                },
                None => {
                    proof {
                        assert forall|x: Node| self.node_in_region(x) implies !(self.blocked_at(x)
                            == 0 && !self.dispatched_at(x)) by {
                            self.lemma_idx_bound(x.s as int, x.t as int);
                            let k = self.slot_spec(x);
                            if self.blocked@[k] == 0 && !self.dispatched@[k] {
                                assert(self.ready@.contains(k as u32));
                            }
                        }
                    }
                    return None;
                },
            }
        }
    }
}


/// The position of the topmost entry of the ready queue `ready` (among its first `n`) whose slot
/// has not been handed out, or -1 when there is none.
pub open spec fn top_fresh(ready: Seq<u32>, dispatched: Seq<bool>, n: int) -> int
    decreases n,
{
    if n <= 0 {
        -1
    } else if !dispatched[ready[n - 1] as int] {
        n - 1
    } else {
        top_fresh(ready, dispatched, n - 1)
    }
}

impl Graph {
    proof fn lemma_same_consumers(a: Graph, b: Graph, s: int, t: int, k: int)
        requires
            a.same_shape(b),
        ensures
            a.consumers(s, t, k) == b.consumers(s, t, k),
        decreases k,
    {
        if k > 0 {
            Self::lemma_same_consumers(a, b, s, t, k - 1);
        }
    }

    /// Graphs of the same shape agree on every node's slot, region and edges.
    pub proof fn lemma_same_shape(a: Graph, b: Graph, n: Node)
        requires
            a.same_shape(b),
        ensures
            a.slot_spec(n) == b.slot_spec(n),
            a.node_in_region(n) == b.node_in_region(n),
            a.succ_spec(n) == b.succ_spec(n),
            a.pred_spec(n) == b.pred_spec(n),
            a.total() == b.total(),
    {
        Self::lemma_same_consumers(a, b, n.s as int, n.t as int, a.gap());
    }

    /// The slots, in order, of those `nodes` that wait for exactly one more predecessor.
    pub open spec fn released(self, nodes: Seq<Node>) -> Seq<u32>
        decreases nodes.len(),
    {
        if nodes.len() == 0 {
            Seq::empty()
        } else {
            let prev = self.released(nodes.drop_last());
            if self.blocked_at(nodes.last()) == 1 {
                prev.push(self.slot_spec(nodes.last()) as u32)
            } else {
                prev
            }
        }
    }

    /// Mark `n` complete, moving anything it was blocking into the ready queue.
    ///
    /// This is the ONLY way a node becomes ready, so "reports completion" and "releases
    /// successors" cannot diverge.
    pub fn complete(&mut self, n: Node)
        requires
            old(self).wf(),
            old(self).node_in_region(n),
            forall|i: int|
                0 <= i < old(self).succ_spec(n).len() ==> old(self).blocked_at(
                    #[trigger] old(self).succ_spec(n)[i],
                ) > 0,
        ensures
            final(self).wf(),
            final(self).same_shape(*old(self)),
            final(self).dispatched_view() == old(self).dispatched_view(),
            forall|x: Node|
                old(self).node_in_region(x) ==> #[trigger] final(self).blocked_view()[old(self).slot_spec(x)] == old(self).blocked_at(x) - if old(self).succ_spec(n).contains(x) {
                    1int
                } else {
                    0int
                },
            final(self).ready_view() == old(self).ready_view() + old(self).released(
                old(self).succ_spec(n),
            ),
    {
        let ghost g0 = *self;
        let mut buf: Vec<Node> = Vec::new();
        std::mem::swap(&mut buf, &mut self.succ_buf);
        proof {
            Self::lemma_same_shape(*self, g0, n);
        }
        self.successors(n, &mut buf);
        let ghost succ = buf@;
        let ghost b0 = self.blocked@;
        let ghost r0 = self.ready@;
        proof {
            g0.lemma_edges_wf(n);
            assert forall|j: int| 0 <= j < succ.len() implies b0[g0.slot_spec(#[trigger] succ[j])] > 0 by {
                assert(g0.blocked_at(g0.succ_spec(n)[j]) > 0);
            }
        }
        let mut i: usize = 0;
        while i < buf.len()
            invariant
                self.wf(),
                self.same_shape(g0),
                g0.wf(),
                g0.node_in_region(n),
                self.dispatched@ == g0.dispatched_view(),
                buf@ == succ,
                succ == g0.succ_spec(n),
                succ.no_duplicates(),
                forall|j: int| 0 <= j < succ.len() ==> g0.node_in_region(#[trigger] succ[j]),
                forall|j: int| 0 <= j < succ.len() ==> b0[g0.slot_spec(#[trigger] succ[j])] > 0,
                b0 == g0.blocked_view(),
                r0 == g0.ready_view(),
                i <= succ.len(),
                forall|x: Node|
                    g0.node_in_region(x) ==> #[trigger] self.blocked@[g0.slot_spec(x)]
                        == b0[g0.slot_spec(x)] - if succ.subrange(0, i as int).contains(x) {
                        1int
                    } else {
                        0int
                    },
                self.ready@ == r0 + g0.released(succ.subrange(0, i as int)),
            decreases succ.len() - i,
        {
            let d = buf[i];
            proof {
                assert(succ[i as int] == d);
                assert(g0.node_in_region(d));
                Self::lemma_same_shape(*self, g0, d);
                g0.lemma_idx_bound(d.s as int, d.t as int);
                if succ.subrange(0, i as int).contains(d) {
                    let k = choose|k: int| 0 <= k < i && succ.subrange(0, i as int)[k] == d;
                    assert(succ[k] == d);
                }
                assert(self.blocked@[g0.slot_spec(d)] == b0[g0.slot_spec(d)]);
            }
            let slot = self.slot(d);
            let ghost bprev = self.blocked@;
            let ghost rprev = self.ready@;
            let v = self.blocked[slot] - 1;
            self.blocked.set(slot, v);
            if v == 0 {
                self.ready.push(slot as u32);
            }
            proof {
                let sub0 = succ.subrange(0, i as int);
                let sub1 = succ.subrange(0, i + 1);
                assert(sub1 == sub0.push(d));
                assert forall|x: Node| g0.node_in_region(x) implies #[trigger] self.blocked@[g0.slot_spec(x)]
                    == b0[g0.slot_spec(x)] - if sub1.contains(x) {
                    1int
                } else {
                    0int
                } by {
                    g0.lemma_idx_bound(x.s as int, x.t as int);
                    assert(bprev[g0.slot_spec(x)] == b0[g0.slot_spec(x)] - if sub0.contains(x) {
                        1int
                    } else {
                        0int
                    });
                    if x == d {
                        assert(sub1[i as int] == d);
                    } else {
                        if g0.slot_spec(x) == g0.slot_spec(d) {
                            g0.lemma_slot_injective(x, d);
                        }
                        if sub1.contains(x) {
                            let k = choose|k: int| 0 <= k < sub1.len() && sub1[k] == x;
                            assert(k < i);
                            assert(sub0[k] == x);
                        }
                        if sub0.contains(x) {
                            let k = choose|k: int| 0 <= k < sub0.len() && sub0[k] == x;
                            assert(sub1[k] == x);
                        }
                    }
                }
                assert(sub1.drop_last() == sub0);
                assert(sub1.last() == d);
                assert(g0.blocked_at(d) == b0[g0.slot_spec(d)]);
                assert forall|q: int|
                    0 <= q < self.ready@.len() implies (#[trigger] self.ready@[q]) < 2 * self.total()
                        && self.blocked@[self.ready@[q] as int] == 0 by {
                    if q < rprev.len() {
                        assert(self.ready@[q] == rprev[q]);
                        assert(bprev[rprev[q] as int] == 0);
                        assert(rprev[q] != slot);
                    }
                }
                assert forall|k: int|
                    0 <= k < 2 * self.total() && #[trigger] self.blocked@[k] == 0
                        && !self.dispatched@[k] implies self.ready@.contains(k as u32) by {
                    if k == slot {
                        assert(self.ready@[self.ready@.len() - 1] == k as u32);
                    } else {
                        assert(rprev.contains(k as u32));
                        let q = choose|q: int| 0 <= q < rprev.len() && rprev[q] == k as u32;
                        assert(self.ready@[q] == k as u32);
                    }
                }
            }
            i += 1;
        }
        self.succ_buf = buf;
        proof {
            assert(succ.subrange(0, succ.len() as int) == succ);
        }
    }
}


impl Graph {
    /// Nodes never dispatched. Non-empty at the end means the edges are wrong; report it rather
    /// than exiting quietly with a partial resolution.
    pub fn undispatched(&self) -> (out: Vec<Node>)
        requires
            self.wf(),
        ensures
            forall|i: int| 0 <= i < out.len() ==> self.node_in_region(#[trigger] out@[i]),
            forall|x: Node|
                self.node_in_region(x) ==> (#[trigger] out@.contains(x) <==> !self.dispatched_at(
                    x,
                )),
            forall|i: int, j: int|
                0 <= i < j < out.len() ==> self.slot_spec(#[trigger] out@[i]) < self.slot_spec(
                    #[trigger] out@[j],
                ),
    {
        let mut out: Vec<Node> = Vec::new();
        let mut k: usize = 0;
        proof {
            assert forall|x: Node|
                self.node_in_region(x) && self.slot_spec(x) < 0 && !self.dispatched_at(x)
                    implies #[trigger] out@.contains(x) by {
                self.lemma_idx_bound(x.s as int, x.t as int);
            }
        }
        while k < self.dispatched.len()
            invariant
                self.wf(),
                k <= self.dispatched@.len(),
                forall|i: int|
                    0 <= i < out.len() ==> self.node_in_region(#[trigger] out@[i]) && self.slot_spec(
                        out@[i],
                    ) < k && !self.dispatched_at(out@[i]),
                forall|x: Node|
                    self.node_in_region(x) && self.slot_spec(x) < k && !self.dispatched_at(x)
                        ==> #[trigger] out@.contains(x),
                forall|i: int, j: int|
                    0 <= i < j < out.len() ==> self.slot_spec(#[trigger] out@[i]) < self.slot_spec(
                        #[trigger] out@[j],
                    ),
            decreases self.dispatched@.len() - k,
        {
            if !self.dispatched[k] {
                let x = self.node_at(k);
                let ghost before = out@;
                out.push(x);
                proof {
                    assert forall|y: Node|
                        self.node_in_region(y) && self.slot_spec(y) < k + 1 && !self.dispatched_at(y)
                            implies #[trigger] out@.contains(y) by {
                        if self.slot_spec(y) == k {
                            self.lemma_slot_injective(x, y);
                            assert(out@[out@.len() - 1] == y);
                        } else {
                            assert(before.contains(y));
                            let i = choose|i: int| 0 <= i < before.len() && before[i] == y;
                            assert(out@[i] == y);
                        }
                    }
                }
            } else {
                proof {
                    assert forall|y: Node|
                        self.node_in_region(y) && self.slot_spec(y) < k + 1 && !self.dispatched_at(y)
                            implies #[trigger] out@.contains(y) by {
                        if self.slot_spec(y) == k {
                        }
                    }
                }
            }
            k += 1;
        }
        proof {
            assert forall|x: Node| self.node_in_region(x) implies (#[trigger] out@.contains(x)
                <==> !self.dispatched_at(x)) by {
                self.lemma_idx_bound(x.s as int, x.t as int);
                if out@.contains(x) {
                    let i = choose|i: int| 0 <= i < out@.len() && out@[i] == x;
                }
            }
        }
        out
    }
}


impl Graph {
    /// Build the whole graph and prime the ready queue.
    ///
    /// `same_row_dep(s, t)` is the earliest degree in row `s` that `Compute(s, t)` reads; a
    /// value outside the region imposes no edge, which is what makes the base of each row a
    /// source.
    pub fn new(
        min_degree: i32,
        max_s: i32,
        max_n: i32,
        same_row_dep: impl Fn(i32, i32) -> i32,
    ) -> (g: Graph)
        requires
            0 <= max_s < i32::MAX,
            max_n + max_s < i32::MAX,
            min_degree > i32::MIN,
            2 * row_off(min_degree as int, max_n as int, max_s + 1) <= u32::MAX,
            forall|s: i32, t: i32|
                0 <= s <= max_s && t >= min_degree && t - s <= max_n ==> #[trigger] same_row_dep.requires((s, t)),
            forall|s: i32, t: i32, r: i32|
                0 <= s <= max_s && t >= min_degree && t - s <= max_n
                    && #[trigger] same_row_dep.ensures((s, t), r) ==> i32::MIN <= t - r <= i32::MAX
                    - max_n - max_s,
        ensures
            g.wf(),
            g.lo() == min_degree,
            g.top_s() == max_s,
            g.top_n() == max_n,
            forall|s: int, t: int|
                #[trigger] g.in_region_spec(s, t) ==> same_row_dep.ensures(
                    (s as i32, t as i32),
                    g.dep(s, t) as i32,
                ),
            forall|x: Node|
                #[trigger] g.node_in_region(x) ==> g.blocked_at(x) == g.pred_spec(x).len()
                    && !g.dispatched_at(x),
            forall|i: int, j: int|
                0 <= i < j < g.ready_view().len() ==> g.ready_view()[i] > g.ready_view()[j],
            forall|i: int| 0 <= i < g.ready_view().len() ==> #[trigger] g.ready_view()[i] < 2 * g.total(),
            forall|x: Node|
                #[trigger] g.node_in_region(x) ==> (g.ready_view().contains(g.slot_spec(x) as u32)
                    <==> g.pred_spec(x).len() == 0),
            g.dispatched_view().len() == 2 * g.total(),
    {
        let ghost lo = min_degree as int;
        let ghost top_n = max_n as int;
        let mut row_offset: Vec<usize> = Vec::new();
        let mut total: usize = 0;
        let mut s: i32 = 0;
        while s <= max_s
            invariant
                lo == min_degree,
                top_n == max_n,
                0 <= s <= max_s + 1,
                0 <= max_s < i32::MAX,
                2 * row_off(lo, top_n, max_s + 1) <= u32::MAX,
                row_offset@.len() == s,
                total == row_off(lo, top_n, s as int),
                forall|k: int| 0 <= k < s ==> #[trigger] row_offset@[k] as int == row_off(lo, top_n, k),
            decreases max_s + 1 - s,
        {
            row_offset.push(total);
            proof {
                lemma_row_off_mono(lo, top_n, s + 1, max_s + 1);
                lemma_row_off_next(lo, top_n, s as int);
            }
            let len = max_n as i64 + s as i64 - min_degree as i64 + 1;
            proof {
                assert(row_len(lo, top_n, s as int) == if len > 0 { len as int } else { 0int });
                assert(row_off(lo, top_n, s + 1) == total + row_len(lo, top_n, s as int));
                assert(row_off(lo, top_n, s + 1) <= u32::MAX);
            }
            total += if len > 0 {
                len as usize
            } else {
                0
            };
            s += 1;
        }
        row_offset.push(total);
        let mut g = Graph {
            min_degree,
            max_s,
            max_n,
            row_offset,
            same_row: Vec::new(),
            max_gap: 1,
            blocked: Vec::new(),
            ready: Vec::new(),
            dispatched: vec![false; 2 * total],
            succ_buf: Vec::new(),
        };
        proof {
            assert(g.shape_wf());
        }
        let mut same_row: Vec<i32> = Vec::new();
        let mut max_gap: i32 = 1;
        let mut s: i32 = 0;
        while s <= max_s
            invariant
                lo == min_degree,
                top_n == max_n,
                g.shape_wf(),
                g.lo() == lo,
                g.top_s() == max_s,
                g.top_n() == top_n,
                0 <= s <= max_s + 1,
                forall|a: i32, b: i32|
                    0 <= a <= max_s && b >= min_degree && b - a <= max_n ==> #[trigger] same_row_dep.requires((a, b)),
                forall|a: i32, b: i32, r: i32|
                    0 <= a <= max_s && b >= min_degree && b - a <= max_n
                        && #[trigger] same_row_dep.ensures((a, b), r) ==> i32::MIN <= b - r <= i32::MAX
                        - max_n - max_s,
                same_row@.len() == row_off(lo, top_n, s as int),
                1 <= max_gap,
                max_n + max_s + max_gap <= i32::MAX,
                forall|a: int, b: int|
                    0 <= a <= max_s && b >= lo && b - a <= top_n && a < s ==> b - max_gap
                        <= #[trigger] same_row@[row_off(lo, top_n, a) + (b - lo)]
                        && same_row_dep.ensures((a as i32, b as i32), same_row@[row_off(lo, top_n, a) + (b - lo)]),
            decreases max_s + 1 - s,
        {
            let mut t: i64 = min_degree as i64;
            proof {
                lemma_row_off_next(lo, top_n, s as int);
                assert(t - lo == 0);
                assert(same_row@.len() == row_off(lo, top_n, s as int) + (t - lo));
            }
            while t <= max_n as i64 + s as i64
                invariant
                    lo == min_degree,
                    top_n == max_n,
                    g.shape_wf(),
                    g.lo() == lo,
                    g.top_s() == max_s,
                    g.top_n() == top_n,
                    0 <= s <= max_s,
                    min_degree <= t,
                    t <= max_n + s + 1 || t == min_degree,
                    forall|a: i32, b: i32|
                    0 <= a <= max_s && b >= min_degree && b - a <= max_n ==> #[trigger] same_row_dep.requires((a, b)),
                    forall|a: i32, b: i32, r: i32|
                        0 <= a <= max_s && b >= min_degree && b - a <= max_n
                            && #[trigger] same_row_dep.ensures((a, b), r) ==> i32::MIN <= b - r
                            <= i32::MAX - max_n - max_s,
                    same_row@.len() == row_off(lo, top_n, s as int) + (t - lo),
                    1 <= max_gap,
                    max_n + max_s + max_gap <= i32::MAX,
                    forall|a: int, b: int|
                        0 <= a <= max_s && b >= lo && b - a <= top_n && (a < s || a == s && b < t)
                            ==> b - max_gap <= #[trigger] same_row@[row_off(lo, top_n, a) + (b - lo)]
                            && same_row_dep.ensures((a as i32, b as i32), same_row@[row_off(lo, top_n, a) + (b - lo)]),
                decreases max_n + s + 1 - t,
            {
                let tt = t as i32;
                let dep = same_row_dep(s, tt);
                if tt - dep > max_gap {
                    max_gap = tt - dep;
                }
                let ghost before = same_row@;
                same_row.push(dep);
                proof {
                    assert forall|a: int, b: int|
                        0 <= a <= max_s && b >= lo && b - a <= top_n && (a < s || a == s && b < t + 1)
                            implies b - max_gap <= #[trigger] same_row@[row_off(lo, top_n, a) + (b - lo)]
                            && same_row_dep.ensures((a as i32, b as i32), same_row@[row_off(lo, top_n, a) + (b - lo)]) by {
                        g.lemma_idx_bound(a, b);
                        assert(before.len() == row_off(lo, top_n, s as int) + (t - lo));
                        if a < s {
                            lemma_row_off_mono(lo, top_n, a + 1, s as int);
                            assert(row_off(lo, top_n, a) + (b - lo) < before.len());
                            assert(same_row@[row_off(lo, top_n, a) + (b - lo)] == before[row_off(lo, top_n, a) + (b - lo)]);
                        } else if b < t {
                            assert(same_row@[row_off(lo, top_n, a) + (b - lo)] == before[row_off(lo, top_n, a) + (b - lo)]);
                        }
                    }
                }
                t += 1;
            }
            proof {
                assert(t - lo == row_len(lo, top_n, s as int));
                assert(same_row@.len() == row_off(lo, top_n, s + 1));
            }
            s += 1;
        }
        g.same_row = same_row;
        g.max_gap = max_gap;
        proof {
            assert(g.deps_wf());
        }
        let ghost gm = g;
        let mut blocked: Vec<u32> = Vec::new();
        let mut k: usize = 0;
        proof {
            assert forall|y: Node|
                #[trigger] g.node_in_region(y) && g.slot_spec(y) < 0 implies blocked@[g.slot_spec(y)]
                    == g.pred_spec(y).len() by {
                g.lemma_idx_bound(y.s as int, y.t as int);
            }
        }
        while k < 2 * total
            invariant
                lo == min_degree,
                top_n == max_n,
                g.shape_wf(),
                g.deps_wf(),
                total == g.total(),
                k <= 2 * total,
                blocked@.len() == k,
                forall|y: Node|
                    #[trigger] g.node_in_region(y) && g.slot_spec(y) < k ==> blocked@[g.slot_spec(y)]
                        == g.pred_spec(y).len(),
            decreases 2 * total - k,
        {
            let x = g.node_at(k);
            let ghost before = blocked@;
            blocked.push(g.indegree(x));
            proof {
                assert forall|y: Node|
                    #[trigger] g.node_in_region(y) && g.slot_spec(y) < k + 1 implies blocked@[g.slot_spec(y)]
                        == g.pred_spec(y).len() by {
                    if g.slot_spec(y) == k {
                        g.lemma_slot_injective(x, y);
                    } else {
                        g.lemma_idx_bound(y.s as int, y.t as int);
                        assert(blocked@[g.slot_spec(y)] == before[g.slot_spec(y)]);
                    }
                }
            }
            k += 1;
        }
        g.blocked = blocked;
        let mut ready: Vec<u32> = Vec::new();
        let mut k: usize = 2 * total;
        while k > 0
            invariant
                lo == min_degree,
                top_n == max_n,
                k <= 2 * total,
                2 * total <= u32::MAX,
                g.blocked@.len() == 2 * total,
                forall|i: int| 0 <= i < ready@.len() ==> k <= #[trigger] ready@[i] < 2 * total
                    && g.blocked@[ready@[i] as int] == 0,
                forall|i: int, j: int| 0 <= i < j < ready@.len() ==> ready@[i] > ready@[j],
                forall|j: int| k <= j < 2 * total && g.blocked@[j] == 0 ==> #[trigger] ready@.contains(j as u32),
            decreases k,
        {
            k -= 1;
            if g.blocked[k] == 0 {
                let ghost before = ready@;
                ready.push(k as u32);
                proof {
                    assert forall|j: int| k <= j < 2 * total && g.blocked@[j] == 0 implies #[trigger] ready@.contains(j as u32) by {
                        if j == k {
                            assert(ready@[ready@.len() - 1] == j as u32);
                        } else {
                            assert(before.contains(j as u32));
                            let i = choose|i: int| 0 <= i < before.len() && before[i] == j as u32;
                            assert(ready@[i] == j as u32);
                        }
                    }
                }
            }
        }
        g.ready = ready;
        proof {
            assert forall|x: Node| #[trigger] g.node_in_region(x) implies g.blocked_at(x) == g.pred_spec(x).len()
                && !g.dispatched_at(x) by {
                Self::lemma_same_shape(g, gm, x);
                g.lemma_idx_bound(x.s as int, x.t as int);
                assert(gm.node_in_region(x));

            }
            assert forall|x: Node| #[trigger] g.node_in_region(x) implies (g.ready_view().contains(
                g.slot_spec(x) as u32,
            ) <==> g.pred_spec(x).len() == 0) by {
                g.lemma_idx_bound(x.s as int, x.t as int);
                let k = g.slot_spec(x);
                assert(g.blocked_at(x) == g.pred_spec(x).len());
                if g.ready_view().contains(k as u32) {
                    let i = choose|i: int| 0 <= i < g.ready@.len() && g.ready@[i] == k as u32;
                    assert(g.blocked@[g.ready@[i] as int] == 0);
                }
            }
            assert forall|s: int, t: int| #[trigger] g.in_region_spec(s, t) implies same_row_dep.ensures(
                (s as i32, t as i32),
                g.dep(s, t) as i32,
            ) by {
                g.lemma_idx_bound(s, t);
            }
        }
        g
    }
}


/// How many of the nodes `ps` are not among the completed nodes `done`.
pub open spec fn count_not_done(ps: Seq<Node>, done: Seq<Node>) -> int
    decreases ps.len(),
{
    if ps.len() == 0 {
        0
    } else {
        count_not_done(ps.drop_last(), done) + if done.contains(ps.last()) {
            0int
        } else {
            1int
        }
    }
}

proof fn lemma_count_not_done_push(ps: Seq<Node>, done: Seq<Node>, d: Node)
    requires
        forall|i: int, j: int| 0 <= i < j < ps.len() ==> ps[i] != ps[j],
        !done.contains(d),
    ensures
        count_not_done(ps, done.push(d)) == count_not_done(ps, done) - if ps.contains(d) {
            1int
        } else {
            0int
        },
    decreases ps.len(),
{
    if ps.len() > 0 {
        let init = ps.drop_last();
        let e = ps.last();
        assert forall|i: int, j: int| 0 <= i < j < init.len() implies init[i] != init[j] by {
            assert(init[i] == ps[i] && init[j] == ps[j]);
        }
        lemma_count_not_done_push(init, done, d);
        assert(done.push(d).contains(e) <==> (done.contains(e) || e == d)) by {
            if done.push(d).contains(e) {
                let k = choose|k: int| 0 <= k < done.push(d).len() && done.push(d)[k] == e;
                if k < done.len() {
                    assert(done[k] == e);
                }
            }
            if done.contains(e) {
                let k = choose|k: int| 0 <= k < done.len() && done[k] == e;
                assert(done.push(d)[k] == e);
            }
            if e == d {
                assert(done.push(d)[done.len() as int] == e);
            }
        }
        assert(ps.contains(d) <==> (init.contains(d) || e == d)) by {
            if ps.contains(d) {
                let k = choose|k: int| 0 <= k < ps.len() && ps[k] == d;
                if k < init.len() {
                    assert(init[k] == d);
                }
            }
            if init.contains(d) {
                let k = choose|k: int| 0 <= k < init.len() && init[k] == d;
                assert(ps[k] == d);
            }
        }
        if e == d {
            assert(!init.contains(d)) by {
                if init.contains(d) {
                    let k = choose|k: int| 0 <= k < init.len() && init[k] == d;
                    assert(ps[k] == ps[ps.len() - 1]);
                }
            }
        }
    }
}

proof fn lemma_count_not_done_positive(ps: Seq<Node>, done: Seq<Node>, j: int)
    requires
        0 <= j < ps.len(),
        !done.contains(ps[j]),
    ensures
        count_not_done(ps, done) > 0,
    decreases ps.len(),
{
    lemma_count_not_done_nonneg(ps.drop_last(), done);
    if j < ps.len() - 1 {
        assert(ps.drop_last()[j] == ps[j]);
        lemma_count_not_done_positive(ps.drop_last(), done, j);
    }
}

proof fn lemma_count_not_done_nonneg(ps: Seq<Node>, done: Seq<Node>)
    ensures
        count_not_done(ps, done) >= 0,
    decreases ps.len(),
{
    if ps.len() > 0 {
        lemma_count_not_done_nonneg(ps.drop_last(), done);
    }
}

impl Graph {
    /// A node waits for no node twice.
    proof fn lemma_pred_distinct(self, x: Node)
        ensures
            forall|i: int, j: int|
                0 <= i < j < self.pred_spec(x).len() ==> self.pred_spec(x)[i] != self.pred_spec(x)[j],
    {
    }

    /// Over any history of distinct completions, starting from a freshly built graph (each
    /// node waiting for all its predecessors), each node's count of predecessors to wait for is
    /// the number of its predecessors not yet completed; so every successor of a node not yet
    /// completed still waits for it, which is what completing that node asks.
    pub proof fn lemma_history_counts(gs: Seq<Graph>, done: Seq<Node>)
        requires
            gs.len() == done.len() + 1,
            gs[0].wf(),
            gs[0].backward_deps(),
            forall|x: Node|
                #[trigger] gs[0].node_in_region(x) ==> gs[0].blocked_at(x) == gs[0].pred_spec(x).len(),
            forall|i: int| 0 <= i < done.len() ==> gs[0].node_in_region(#[trigger] done[i]),
            forall|i: int, j: int| 0 <= i < j < done.len() ==> done[i] != done[j],
            forall|i: int| 0 <= i < done.len() ==> (#[trigger] gs[i + 1]).same_shape(gs[0]),
            forall|i: int, x: Node|
                0 <= i < done.len() && gs[0].node_in_region(x) ==> #[trigger] gs[i + 1].blocked_view()[gs[0].slot_spec(x)]
                    == gs[i].blocked_at(x) - if gs[0].succ_spec(done[i]).contains(x) {
                    1int
                } else {
                    0int
                },
        ensures
            forall|x: Node|
                #[trigger] gs[0].node_in_region(x) ==> gs[done.len() as int].blocked_at(x)
                    == count_not_done(gs[0].pred_spec(x), done),
            forall|n: Node, x: Node|
                gs[0].node_in_region(n) && !done.contains(n) && #[trigger] gs[0].succ_spec(n).contains(x)
                    && gs[0].node_in_region(x) ==> gs[done.len() as int].blocked_at(x) > 0,
        decreases done.len(),
    {
        let g0 = gs[0];
        let k = done.len() as int;
        if k == 0 {
            assert forall|x: Node| #[trigger] g0.node_in_region(x) implies g0.blocked_at(x) == count_not_done(
                g0.pred_spec(x),
                done,
            ) by {
                lemma_count_not_done_all(g0.pred_spec(x), done);
            }
        } else {
            let gi = gs.drop_last();
            let di = done.drop_last();
            assert forall|i: int, j: int| 0 <= i < j < di.len() implies di[i] != di[j] by {
                assert(di[i] == done[i] && di[j] == done[j]);
            }
            assert forall|i: int| 0 <= i < di.len() implies (#[trigger] gi[i + 1]).same_shape(gi[0]) by {
                assert(gi[i + 1] == gs[i + 1]);
            }
            assert forall|i: int| 0 <= i < di.len() implies gs[0].node_in_region(#[trigger] di[i]) by {
                assert(di[i] == done[i]);
            }
            assert forall|i: int, x: Node|
                0 <= i < di.len() && gi[0].node_in_region(x) implies #[trigger] gi[i + 1].blocked_view()[gi[0].slot_spec(x)]
                    == gi[i].blocked_at(x) - if gi[0].succ_spec(di[i]).contains(x) {
                    1int
                } else {
                    0int
                } by {
                assert(gi[i + 1] == gs[i + 1] && gi[i] == gs[i] && di[i] == done[i]);
            }
            Self::lemma_history_counts(gi, di);
            assert(gi[0] == g0);
            let d = done[k - 1];
            assert(done == di.push(d));
            assert(!di.contains(d)) by {
                if di.contains(d) {
                    let j = choose|j: int| 0 <= j < di.len() && di[j] == d;
                    assert(done[j] == done[k - 1]);
                }
            }
            let gl = gs[k];
            let gp = gs[k - 1];
            assert forall|x: Node| #[trigger] g0.node_in_region(x) implies gl.blocked_at(x) == count_not_done(
                g0.pred_spec(x),
                done,
            ) by {
                assert(gi[di.len() as int] == gp);
                assert(gi[0].node_in_region(x));
                assert(gp.blocked_at(x) == count_not_done(g0.pred_spec(x), di));
                Self::lemma_same_shape(gl, g0, x);
                if k - 1 > 0 {
                    let i = k - 2;
                    assert(gs[i + 1].same_shape(gs[0]));
                    Self::lemma_same_shape(gp, g0, x);
                }
                assert(gl.blocked_at(x) == gl.blocked_view()[g0.slot_spec(x)]);
                g0.lemma_pred_distinct(x);
                lemma_count_not_done_push(g0.pred_spec(x), di, d);
                g0.lemma_edges_agree(d, x);
            }
        }
        let gl = gs[k];
        assert forall|n: Node, x: Node|
            g0.node_in_region(n) && !done.contains(n) && #[trigger] g0.succ_spec(n).contains(x)
                && g0.node_in_region(x) implies gl.blocked_at(x) > 0 by {
            g0.lemma_edges_agree(n, x);
            let j = choose|j: int| 0 <= j < g0.pred_spec(x).len() && g0.pred_spec(x)[j] == n;
            lemma_count_not_done_positive(g0.pred_spec(x), done, j);
        }
    }
}

proof fn lemma_count_not_done_all(ps: Seq<Node>, done: Seq<Node>)
    requires
        done.len() == 0,
    ensures
        count_not_done(ps, done) == ps.len(),
    decreases ps.len(),
{
    if ps.len() > 0 {
        lemma_count_not_done_all(ps.drop_last(), done);
    }
}

/// How many of the nodes `ps` have not been handed out yet.
pub open spec fn count_undispatched(g: Graph, ps: Seq<Node>) -> int
    decreases ps.len(),
{
    if ps.len() == 0 {
        0
    } else {
        count_undispatched(g, ps.drop_last()) + if !g.dispatched_at(ps.last()) {
            1int
        } else {
            0int
        }
    }
}

/// The scheduling state is settled: every node waits exactly for those of its predecessors not
/// yet handed out, as it does when each node handed out has also been completed.
pub open spec fn settled(g: Graph) -> bool {
    forall|x: Node|
        #[trigger] g.node_in_region(x) ==> g.blocked_at(x) == count_undispatched(g, g.pred_spec(x))
}

/// The rank of a node: every dependency points from a lower rank to a higher one.
pub open spec fn node_rank(g: Graph, n: Node) -> int {
    2 * (n.s + n.t - g.lo()) + if n.phase == Phase::Register {
        1int
    } else {
        0int
    }
}

proof fn lemma_count_all(g: Graph, ps: Seq<Node>)
    requires
        forall|i: int| 0 <= i < ps.len() ==> !g.dispatched_at(#[trigger] ps[i]),
    ensures
        count_undispatched(g, ps) == ps.len(),
    decreases ps.len(),
{
    if ps.len() > 0 {
        lemma_count_all(g, ps.drop_last());
        assert(!g.dispatched_at(ps[ps.len() - 1]));
    }
}

proof fn lemma_count_witness(g: Graph, ps: Seq<Node>) -> (i: int)
    requires
        count_undispatched(g, ps) > 0,
    ensures
        0 <= i < ps.len(),
        !g.dispatched_at(ps[i]),
    decreases ps.len(),
{
    if ps.len() == 0 {
        0
    } else if !g.dispatched_at(ps.last()) {
        ps.len() - 1
    } else {
        let i = lemma_count_witness(g, ps.drop_last());
        i
    }
}

/// Handing out one more node `n` lowers the count of a list without repeats by one exactly when
/// `n` is in it.
proof fn lemma_count_step(g0: Graph, g1: Graph, ps: Seq<Node>, n: Node)
    requires
        ps.no_duplicates(),
        !g0.dispatched_at(n),
        g1.dispatched_at(n),
        forall|i: int|
            0 <= i < ps.len() && ps[i] != n ==> g1.dispatched_at(#[trigger] ps[i])
                == g0.dispatched_at(ps[i]),
    ensures
        count_undispatched(g1, ps) == count_undispatched(g0, ps) - if ps.contains(n) {
            1int
        } else {
            0int
        },
    decreases ps.len(),
{
    if ps.len() > 0 {
        let init = ps.drop_last();
        assert forall|i: int|
            0 <= i < init.len() && init[i] != n implies g1.dispatched_at(#[trigger] init[i])
            == g0.dispatched_at(init[i]) by {
            assert(init[i] == ps[i]);
        }
        lemma_count_step(g0, g1, init, n);
        if ps.last() == n {
            assert(!init.contains(n)) by {
                if init.contains(n) {
                    let k = choose|k: int| 0 <= k < init.len() && init[k] == n;
                    assert(ps[k] == ps[ps.len() - 1]);
                }
            }
            assert(ps.contains(n)) by {
                assert(ps[ps.len() - 1] == n);
            }
        } else {
            assert(ps[ps.len() - 1] != n);
            assert(ps.contains(n) == init.contains(n)) by {
                if ps.contains(n) {
                    let k = choose|k: int| 0 <= k < ps.len() && ps[k] == n;
                    assert(init[k] == n);
                }
                if init.contains(n) {
                    let k = choose|k: int| 0 <= k < init.len() && init[k] == n;
                    assert(ps[k] == n);
                }
            }
        }
    }
}

impl Graph {
    /// Graphs of the same shape agree on whether their dependencies point backward.
    pub proof fn lemma_backward_same_shape(a: Graph, b: Graph)
        requires
            a.same_shape(b),
            a.backward_deps(),
        ensures
            b.backward_deps(),
    {
        assert forall|s: int, t: int| #[trigger] b.in_region_spec(s, t) implies b.dep(s, t) < t by {
            assert(a.in_region_spec(s, t));
        }
    }

    /// Every predecessor of a node has a lower rank.
    proof fn lemma_pred_rank(self, n: Node, i: int)
        requires
            self.wf(),
            self.backward_deps(),
            self.node_in_region(n),
            0 <= i < self.pred_spec(n).len(),
        ensures
            node_rank(self, self.pred_spec(n)[i]) < node_rank(self, n),
            node_rank(self, self.pred_spec(n)[i]) >= 0,
    {
        let (s, t) = (n.s as int, n.t as int);
        self.lemma_edges_wf(n);
        let p = self.pred_spec(n)[i];
        assert(self.node_in_region(p));
        if n.phase == Phase::Compute && p.s == n.s {
            self.lemma_idx_bound(s, t);
            assert(self.dep(s, t) < t);
        }
    }

    /// A freshly built graph is settled: nothing is handed out and every node waits for all its
    /// predecessors.
    pub proof fn lemma_fresh_settled(self)
        requires
            forall|x: Node|
                #[trigger] self.node_in_region(x) ==> self.blocked_at(x) == self.pred_spec(x).len()
                    && !self.dispatched_at(x),
            self.wf(),
        ensures
            settled(self),
    {
        assert forall|x: Node| #[trigger] self.node_in_region(x) implies self.blocked_at(x)
            == count_undispatched(self, self.pred_spec(x)) by {
            self.lemma_edges_wf(x);
            assert forall|i: int| 0 <= i < self.pred_spec(x).len() implies !self.dispatched_at(
                #[trigger] self.pred_spec(x)[i],
            ) by {
                assert(self.node_in_region(self.pred_spec(x)[i]));
            }
            lemma_count_all(self, self.pred_spec(x));
        }
    }

    /// In a settled graph, a node just handed out may be completed: each node it blocks still
    /// waits for it.
    pub proof fn lemma_completion_allowed(g0: Graph, n: Node, x: Node)
        requires
            g0.wf(),
            g0.backward_deps(),
            settled(g0),
            g0.node_in_region(n),
            !g0.dispatched_at(n),
            g0.succ_spec(n).contains(x),
        ensures
            g0.blocked_at(x) > 0,
    {
        g0.lemma_edges_wf(n);
        let k = choose|k: int| 0 <= k < g0.succ_spec(n).len() && g0.succ_spec(n)[k] == x;
        assert(g0.node_in_region(g0.succ_spec(n)[k]));
        g0.lemma_edges_agree(n, x);
        let j = choose|j: int| 0 <= j < g0.pred_spec(x).len() && g0.pred_spec(x)[j] == n;
        lemma_count_positive(g0, g0.pred_spec(x), j);
    }

    /// Handing out a ready node and completing it keeps a graph settled.
    pub proof fn lemma_step_settled(g0: Graph, g2: Graph, n: Node)
        requires
            g0.wf(),
            g0.backward_deps(),
            g2.wf(),
            settled(g0),
            g0.node_in_region(n),
            !g0.dispatched_at(n),
            g2.same_shape(g0),
            g2.dispatched_view() == g0.dispatched_view().update(g0.slot_spec(n), true),
            forall|x: Node|
                g0.node_in_region(x) ==> #[trigger] g2.blocked_view()[g0.slot_spec(x)]
                    == g0.blocked_at(x) - if g0.succ_spec(n).contains(x) {
                    1int
                } else {
                    0int
                },
        ensures
            settled(g2),
    {
        assert forall|x: Node| #[trigger] g2.node_in_region(x) implies g2.blocked_at(x)
            == count_undispatched(g2, g2.pred_spec(x)) by {
            Self::lemma_same_shape(g2, g0, x);
            Self::lemma_same_shape(g2, g0, n);
            assert(g0.node_in_region(x));
            g0.lemma_edges_wf(x);
            g0.lemma_edges_agree(n, x);
            g0.lemma_idx_bound(n.s as int, n.t as int);
            let ps = g0.pred_spec(x);
            assert(g2.dispatched_at(n));
            assert forall|i: int| 0 <= i < ps.len() && ps[i] != n implies g2.dispatched_at(
                #[trigger] ps[i],
            ) == g0.dispatched_at(ps[i]) by {
                let p = ps[i];
                assert(g0.node_in_region(p));
                Self::lemma_same_shape(g2, g0, p);
                g0.lemma_idx_bound(p.s as int, p.t as int);
                if g0.slot_spec(p) == g0.slot_spec(n) {
                    g0.lemma_slot_injective(p, n);
                }
            }
            lemma_count_step(g0, g2, ps, n);
        }
    }

    /// In a settled graph a node with nothing left to wait for, such as one the ready queue
    /// hands out, has had every predecessor handed out.
    pub proof fn lemma_ready_after_predecessors(self, x: Node)
        requires
            self.wf(),
            settled(self),
            self.node_in_region(x),
            self.blocked_at(x) == 0,
        ensures
            forall|i: int|
                0 <= i < self.pred_spec(x).len() ==> self.dispatched_at(#[trigger] self.pred_spec(x)[i]),
    {
        assert forall|i: int| 0 <= i < self.pred_spec(x).len() implies self.dispatched_at(
            #[trigger] self.pred_spec(x)[i],
        ) by {
            if !self.dispatched_at(self.pred_spec(x)[i]) {
                lemma_count_positive(self, self.pred_spec(x), i);
            }
        }
    }

    /// A settled graph with no node ready has handed out every node: following the
    /// predecessors of a node not handed out would descend in rank forever.
    pub proof fn lemma_quiescent_all_dispatched(self, x: Node)
        requires
            self.wf(),
            self.backward_deps(),
            settled(self),
            forall|y: Node|
                self.node_in_region(y) ==> !(self.blocked_at(y) == 0 && !self.dispatched_at(y)),
            self.node_in_region(x),
        ensures
            self.dispatched_at(x),
        decreases node_rank(self, x),
    {
        if !self.dispatched_at(x) {
            assert(self.blocked_at(x) > 0);
            let i = lemma_count_witness(self, self.pred_spec(x));
            let p = self.pred_spec(x)[i];
            self.lemma_edges_wf(x);
            assert(self.node_in_region(p));
            self.lemma_pred_rank(x, i);
            self.lemma_quiescent_all_dispatched(p);
        }
    }
}

proof fn lemma_count_positive(g: Graph, ps: Seq<Node>, j: int)
    requires
        0 <= j < ps.len(),
        !g.dispatched_at(ps[j]),
    ensures
        count_undispatched(g, ps) > 0,
    decreases ps.len(),
{
    lemma_count_nonneg(g, ps.drop_last());
    if j < ps.len() - 1 {
        assert(ps.drop_last()[j] == ps[j]);
        lemma_count_positive(g, ps.drop_last(), j);
    }
}

proof fn lemma_count_nonneg(g: Graph, ps: Seq<Node>)
    ensures
        count_undispatched(g, ps) >= 0,
    decreases ps.len(),
{
    if ps.len() > 0 {
        lemma_count_nonneg(g, ps.drop_last());
    }
}


/// How many of the nodes `ps` satisfy `f`.
pub open spec fn count_where(ps: Seq<Node>, f: spec_fn(Node) -> bool) -> int
    decreases ps.len(),
{
    if ps.len() == 0 {
        0
    } else {
        count_where(ps.drop_last(), f) + if f(ps.last()) {
            1int
        } else {
            0int
        }
    }
}

proof fn lemma_count_where_same(ps: Seq<Node>, f: spec_fn(Node) -> bool, h: spec_fn(Node) -> bool)
    requires
        forall|i: int| 0 <= i < ps.len() ==> f(#[trigger] ps[i]) == h(ps[i]),
    ensures
        count_where(ps, f) == count_where(ps, h),
    decreases ps.len(),
{
    if ps.len() > 0 {
        let init = ps.drop_last();
        assert forall|i: int| 0 <= i < init.len() implies f(#[trigger] init[i]) == h(init[i]) by {
            assert(init[i] == ps[i]);
        }
        lemma_count_where_same(init, f, h);
        assert(f(ps[ps.len() - 1]) == h(ps[ps.len() - 1]));
    }
}

/// Completing `n` lowers the count of incomplete nodes in a list without repeats by one exactly
/// when `n` is in it.
proof fn lemma_count_where_step(
    ps: Seq<Node>,
    f: spec_fn(Node) -> bool,
    h: spec_fn(Node) -> bool,
    n: Node,
)
    requires
        ps.no_duplicates(),
        f(n),
        !h(n),
        forall|i: int| 0 <= i < ps.len() && ps[i] != n ==> f(#[trigger] ps[i]) == h(ps[i]),
    ensures
        count_where(ps, h) == count_where(ps, f) - if ps.contains(n) {
            1int
        } else {
            0int
        },
    decreases ps.len(),
{
    if ps.len() > 0 {
        let init = ps.drop_last();
        assert forall|i: int| 0 <= i < init.len() && init[i] != n implies f(#[trigger] init[i])
            == h(init[i]) by {
            assert(init[i] == ps[i]);
        }
        lemma_count_where_step(init, f, h, n);
        if ps.last() == n {
            assert(!init.contains(n)) by {
                if init.contains(n) {
                    let k = choose|k: int| 0 <= k < init.len() && init[k] == n;
                    assert(ps[k] == ps[ps.len() - 1]);
                }
            }
            assert(ps.contains(n)) by {
                assert(ps[ps.len() - 1] == n);
            }
        } else {
            assert(ps[ps.len() - 1] != n);
            assert(f(ps[ps.len() - 1]) == h(ps[ps.len() - 1]));
            assert(ps.contains(n) == init.contains(n)) by {
                if ps.contains(n) {
                    let k = choose|k: int| 0 <= k < ps.len() && ps[k] == n;
                    assert(init[k] == n);
                }
                if init.contains(n) {
                    let k = choose|k: int| 0 <= k < init.len() && init[k] == n;
                    assert(ps[k] == n);
                }
            }
        }
    }
}

proof fn lemma_count_where_positive(ps: Seq<Node>, f: spec_fn(Node) -> bool, j: int)
    requires
        0 <= j < ps.len(),
        f(ps[j]),
    ensures
        count_where(ps, f) > 0,
    decreases ps.len(),
{
    lemma_count_where_nonneg(ps.drop_last(), f);
    if j < ps.len() - 1 {
        assert(ps.drop_last()[j] == ps[j]);
        lemma_count_where_positive(ps.drop_last(), f, j);
    }
}

proof fn lemma_count_where_nonneg(ps: Seq<Node>, f: spec_fn(Node) -> bool)
    ensures
        count_where(ps, f) >= 0,
    decreases ps.len(),
{
    if ps.len() > 0 {
        lemma_count_where_nonneg(ps.drop_last(), f);
    }
}

/// The number of `true` entries of a sequence.
pub open spec fn count_true(v: Seq<bool>) -> int
    decreases v.len(),
{
    if v.len() == 0 {
        0
    } else {
        count_true(v.drop_last()) + if v.last() {
            1int
        } else {
            0int
        }
    }
}

proof fn lemma_count_true_update(v: Seq<bool>, k: int, b: bool)
    requires
        0 <= k < v.len(),
    ensures
        count_true(v.update(k, b)) == count_true(v) - (if v[k] {
            1int
        } else {
            0int
        }) + if b {
            1int
        } else {
            0int
        },
    decreases v.len(),
{
    let w = v.update(k, b);
    if k == v.len() - 1 {
        assert(w.drop_last() == v.drop_last());
    } else {
        lemma_count_true_update(v.drop_last(), k, b);
        assert(w.drop_last() == v.drop_last().update(k, b));
    }
}

proof fn lemma_count_true_zero(v: Seq<bool>, k: int)
    requires
        count_true(v) == 0,
        0 <= k < v.len(),
    ensures
        !v[k],
    decreases v.len(),
{
    lemma_count_true_nonneg(v.drop_last());
    if k < v.len() - 1 {
        assert(v.drop_last()[k] == v[k]);
        lemma_count_true_zero(v.drop_last(), k);
    }
}

proof fn lemma_count_true_nonneg(v: Seq<bool>)
    ensures
        0 <= count_true(v) <= v.len(),
    decreases v.len(),
{
    if v.len() > 0 {
        lemma_count_true_nonneg(v.drop_last());
    }
}

proof fn lemma_count_true_all_false(n: nat)
    ensures
        count_true(Seq::new(n, |i: int| false)) == 0,
    decreases n,
{
    if n > 0 {
        lemma_count_true_all_false((n - 1) as nat);
        assert(Seq::new(n, |i: int| false).drop_last() == Seq::new((n - 1) as nat, |i: int| false));
    }
}

proof fn lemma_count_where_all(ps: Seq<Node>, f: spec_fn(Node) -> bool)
    requires
        forall|i: int| 0 <= i < ps.len() ==> #[trigger] f(ps[i]),
    ensures
        count_where(ps, f) == ps.len(),
    decreases ps.len(),
{
    if ps.len() > 0 {
        let init = ps.drop_last();
        assert forall|i: int| 0 <= i < init.len() implies #[trigger] f(init[i]) by {
            assert(init[i] == ps[i]);
        }
        lemma_count_where_all(init, f);
        assert(f(ps[ps.len() - 1]));
    }
}

proof fn lemma_count_bridge(g: Graph, ps: Seq<Node>, f: spec_fn(Node) -> bool)
    requires
        forall|i: int| 0 <= i < ps.len() ==> f(#[trigger] ps[i]) == !g.dispatched_at(ps[i]),
    ensures
        count_where(ps, f) == count_undispatched(g, ps),
    decreases ps.len(),
{
    if ps.len() > 0 {
        let init = ps.drop_last();
        assert forall|i: int| 0 <= i < init.len() implies f(#[trigger] init[i]) == !g.dispatched_at(
            init[i],
        ) by {
            assert(init[i] == ps[i]);
        }
        lemma_count_bridge(g, init, f);
        assert(f(ps[ps.len() - 1]) == !g.dispatched_at(ps[ps.len() - 1]));
    }
}

/// What the driver of a stem computation does next.
#[derive(Clone, Copy, PartialEq, Eq, Structural, Debug)]
pub enum StemAction {
    /// Start computing bidegree `(s, t)`; report it with [`StemScheduler::computed`].
    Compute(i32, i32),
    /// Register the computed bidegree `(s, t)`.
    Register(i32, i32),
    /// Wait for a computation to report.
    Wait,
    /// Every bidegree of the stem has been computed and registered.
    Finished,
}

/// The decisions of a stem computation: which bidegree to compute or register next, over the
/// dependency graph, with the computations under way.
pub struct StemScheduler {
    graph: Graph,
    /// Which compute nodes, by slot, are under way.
    in_flight: Vec<bool>,
    in_flight_count: usize,
}

impl StemScheduler {
    /// The dependency graph.
    pub closed spec fn graph_view(self) -> Graph {
        self.graph
    }

    /// Which nodes, by slot, are under way.
    pub closed spec fn flight_view(self) -> Seq<bool> {
        self.in_flight@
    }

    /// A node is done: handed out and not under way any more.
    pub open spec fn incomplete_fn(self) -> spec_fn(Node) -> bool {
        |p: Node| !self.graph_view().dispatched_at(p) || self.flight_view()[self.graph_view().slot_spec(p)]
    }

    /// The scheduler's invariant: the graph's, the record of the computations under way, and
    /// every node waiting exactly for its predecessors not yet done.
    pub closed spec fn wf(self) -> bool {
        &&& self.graph.wf()
        &&& self.graph.backward_deps()
        &&& self.in_flight@.len() == 2 * self.graph.total()
        &&& self.in_flight_count == count_true(self.in_flight@)
        &&& forall|k: int| 0 <= k < self.in_flight@.len() && #[trigger] self.in_flight@[k] ==> self.graph.dispatched@[k]
        &&& forall|x: Node|
            #[trigger] self.graph.node_in_region(x) ==> self.graph.blocked_at(x) == count_where(
                self.graph.pred_spec(x),
                self.incomplete_fn(),
            )
    }

    /// The scheduler of the region `0 <= s <= max_s`, `t >= min_degree`, `t - s <= max_n`, with
    /// the same-row reads of [`Graph::new`].
    pub fn new(
        min_degree: i32,
        max_s: i32,
        max_n: i32,
        same_row_dep: impl Fn(i32, i32) -> i32,
    ) -> (sched: Self)
        requires
            0 <= max_s < i32::MAX,
            max_n + max_s < i32::MAX,
            min_degree > i32::MIN,
            2 * row_off(min_degree as int, max_n as int, max_s + 1) <= u32::MAX,
            forall|s: i32, t: i32|
                0 <= s <= max_s && t >= min_degree && t - s <= max_n ==> #[trigger] same_row_dep.requires((s, t)),
            forall|s: i32, t: i32, r: i32|
                0 <= s <= max_s && t >= min_degree && t - s <= max_n
                    && #[trigger] same_row_dep.ensures((s, t), r) ==> r < t && t - r <= i32::MAX
                    - max_n - max_s,
        ensures
            sched.wf(),
            sched.graph_view().lo() == min_degree,
            sched.graph_view().top_s() == max_s,
            sched.graph_view().top_n() == max_n,
            forall|x: Node| #[trigger] sched.graph_view().node_in_region(x) ==> !sched.graph_view().dispatched_at(x),
    {
        let graph = Graph::new(min_degree, max_s, max_n, same_row_dep);
        let mut in_flight: Vec<bool> = Vec::new();
        let mut k: usize = 0;
        while k < graph.blocked.len()
            invariant
                k <= graph.blocked@.len(),
                in_flight@ == Seq::new(k as nat, |i: int| false),
            decreases graph.blocked@.len() - k,
        {
            in_flight.push(false);
            k += 1;
            proof {
                assert(in_flight@ =~= Seq::new(k as nat, |i: int| false));
            }
        }
        let sched = StemScheduler { graph, in_flight, in_flight_count: 0 };
        proof {
            lemma_count_true_all_false(sched.in_flight@.len());
            let g = sched.graph;
            assert forall|x: Node| #[trigger] g.node_in_region(x) implies g.blocked_at(x)
                == count_where(g.pred_spec(x), sched.incomplete_fn()) by {
                g.lemma_edges_wf(x);
                let ps = g.pred_spec(x);
                assert forall|i: int| 0 <= i < ps.len() implies (sched.incomplete_fn())(#[trigger] ps[i]) by {
                    assert(g.node_in_region(ps[i]));
                    assert(!g.dispatched_at(ps[i]));
                }
                lemma_count_where_all(ps, sched.incomplete_fn());
            }
        }
        sched
    }

    /// The next thing to do: compute or register a bidegree whose dependencies are done, wait
    /// for a computation under way, or stop because everything is done. A bidegree handed out
    /// to register counts as done at once.
    pub fn next_action(&mut self) -> (a: StemAction)
        requires
            old(self).wf(),
        ensures
            final(self).wf(),
            final(self).graph_view().same_shape(old(self).graph_view()),
            match a {
                StemAction::Compute(s, t) => {
                    let n = compute_node(s as int, t as int);
                    &&& old(self).graph_view().node_in_region(n)
                    &&& !old(self).graph_view().dispatched_at(n)
                    &&& old(self).graph_view().blocked_at(n) == 0
                    &&& final(self).graph_view().dispatched_at(n)
                    &&& final(self).flight_view()[old(self).graph_view().slot_spec(n)]
                },
                StemAction::Register(s, t) => {
                    let n = register_node(s as int, t as int);
                    &&& old(self).graph_view().node_in_region(n)
                    &&& !old(self).graph_view().dispatched_at(n)
                    &&& old(self).graph_view().blocked_at(n) == 0
                    &&& final(self).graph_view().dispatched_at(n)
                },
                StemAction::Wait => count_true(final(self).flight_view()) > 0,
                StemAction::Finished => forall|x: Node|
                    #[trigger] final(self).graph_view().node_in_region(x) ==> final(self).graph_view().dispatched_at(x) && !final(self).flight_view()[final(self).graph_view().slot_spec(x)],
            },
    {
        let ghost s0 = *self;
        let ghost g0 = self.graph;
        match self.graph.pop_ready() {
            Some(n) => {
                let ghost g1 = self.graph;
                proof {
                    Graph::lemma_same_shape(g1, g0, n);
                    g0.lemma_idx_bound(n.s as int, n.t as int);
                }
                match n.phase {
                    Phase::Compute => {
                        let k = self.graph.slot(n);
                        proof {
                            assert(!self.in_flight@[k as int]);
                            lemma_count_true_update(self.in_flight@, k as int, true);
                            lemma_count_true_nonneg(self.in_flight@.update(k as int, true));
                        }
                        self.in_flight.set(k, true);
                        self.in_flight_count = self.in_flight_count + 1;
                        proof {
                            self.lemma_settled_after_dispatch(s0, n);
                        }
                        StemAction::Compute(n.s, n.t)
                    },
                    Phase::Register => {
                        proof {
                            assert forall|i: int| 0 <= i < g1.succ_spec(n).len() implies g1.blocked_at(
                                #[trigger] g1.succ_spec(n)[i],
                            ) > 0 by {
                                let x = g1.succ_spec(n)[i];
                                Graph::lemma_same_shape(g1, g0, x);
                                s0.lemma_successor_waits(n, x);
                            }
                        }
                        self.graph.complete(n);
                        proof {
                            let g = self.graph;
                            assert forall|x: Node| g0.node_in_region(x) implies #[trigger] g.blocked_view()[g0.slot_spec(x)]
                                == g0.blocked_at(x) - if g0.succ_spec(n).contains(x) {
                                1int
                            } else {
                                0int
                            } by {
                                Graph::lemma_same_shape(g1, g0, x);
                                Graph::lemma_same_shape(g1, g0, n);
                                assert(g1.node_in_region(x));
                            }
                            assert forall|x: Node| g0.node_in_region(x) && x != n implies (#[trigger] g.dispatched_at(x))
                                == g0.dispatched_at(x) && self.in_flight@[g0.slot_spec(x)]
                                == s0.in_flight@[g0.slot_spec(x)] by {
                                Graph::lemma_same_shape(g1, g0, x);
                                Graph::lemma_same_shape(g, g0, x);
                                g0.lemma_idx_bound(x.s as int, x.t as int);
                                if g0.slot_spec(x) == g0.slot_spec(n) {
                                    g0.lemma_slot_injective(x, n);
                                }
                            }
                            Graph::lemma_same_shape(g, g0, n);
                            assert(!s0.in_flight@[g0.slot_spec(n)]);
                            assert forall|k: int| 0 <= k < self.in_flight@.len() && #[trigger] self.in_flight@[k] implies g.dispatched@[k] by {
                                assert(s0.in_flight@[k]);
                                assert(g0.dispatched@[k]);
                            }
                            self.lemma_settled_after_completion(s0, n);
                        }
                        StemAction::Register(n.s, n.t)
                    },
                }
            },
            None => {
                proof {
                    self.lemma_wf_same_counts(s0);
                }
                if self.in_flight_count == 0 {
                    proof {
                        let g = self.graph;
                        assert forall|x: Node| #[trigger] g.node_in_region(x) implies !self.in_flight@[g.slot_spec(x)] by {
                            g.lemma_idx_bound(x.s as int, x.t as int);
                            lemma_count_true_zero(self.in_flight@, g.slot_spec(x));
                        }
                        assert forall|x: Node| #[trigger] g.node_in_region(x) implies g.blocked_at(x)
                            == count_undispatched(g, g.pred_spec(x)) by {
                            g.lemma_edges_wf(x);
                            let ps = g.pred_spec(x);
                            assert forall|i: int| 0 <= i < ps.len() implies (self.incomplete_fn())(
                                #[trigger] ps[i],
                            ) == !g.dispatched_at(ps[i]) by {
                                assert(g.node_in_region(ps[i]));
                            }
                            lemma_count_bridge(g, ps, self.incomplete_fn());
                        }
                        assert forall|x: Node| #[trigger] g.node_in_region(x) implies g.dispatched_at(x) by {
                            g.lemma_quiescent_all_dispatched(x);
                        }
                    }
                    StemAction::Finished
                } else {
                    StemAction::Wait
                }
            },
        }
    }

    /// A computation reports that bidegree `(s, t)` is computed. Returns whether it was under
    /// way; a report of anything else changes nothing.
    pub fn computed(&mut self, s: i32, t: i32) -> (done: bool)
        requires
            old(self).wf(),
        ensures
            final(self).wf(),
            final(self).graph_view().same_shape(old(self).graph_view()),
            done == (old(self).graph_view().node_in_region(compute_node(s as int, t as int))
                && old(self).flight_view()[old(self).graph_view().slot_spec(
                compute_node(s as int, t as int),
            )]),
            done ==> !final(self).flight_view()[old(self).graph_view().slot_spec(
                compute_node(s as int, t as int),
            )],
            !done ==> *final(self) == *old(self),
    {
        if !self.graph.in_region(s, t) {
            return false;
        }
        let n = Node::compute(s, t);
        let k = self.graph.slot(n);
        if !self.in_flight[k] {
            return false;
        }
        let ghost s0 = *self;
        let ghost g0 = self.graph;
        proof {
            assert forall|i: int| 0 <= i < g0.succ_spec(n).len() implies g0.blocked_at(
                #[trigger] g0.succ_spec(n)[i],
            ) > 0 by {
                let x = g0.succ_spec(n)[i];
                s0.lemma_successor_waits(n, x);
            }
            lemma_count_true_update(self.in_flight@, k as int, false);
            lemma_count_true_nonneg(self.in_flight@.update(k as int, false));
        }
        self.in_flight.set(k, false);
        self.in_flight_count = self.in_flight_count - 1;
        self.graph.complete(n);
        proof {
            let g = self.graph;
            Graph::lemma_same_shape(g, g0, n);
            g0.lemma_idx_bound(n.s as int, n.t as int);
            assert forall|x: Node| g0.node_in_region(x) && x != n implies (#[trigger] g.dispatched_at(x))
                == g0.dispatched_at(x) && self.in_flight@[g0.slot_spec(x)]
                == s0.in_flight@[g0.slot_spec(x)] by {
                Graph::lemma_same_shape(g, g0, x);
                g0.lemma_idx_bound(x.s as int, x.t as int);
                if g0.slot_spec(x) == g0.slot_spec(n) {
                    g0.lemma_slot_injective(x, n);
                }
            }
            assert forall|kk: int| 0 <= kk < self.in_flight@.len() && #[trigger] self.in_flight@[kk] implies g.dispatched@[kk] by {
                assert(s0.in_flight@[kk]);
            }
            self.lemma_settled_after_completion(s0, n);
        }
        true
    }

    /// Nodes never dispatched (none, once [`Self::next_action`] has said it is finished).
    pub fn stuck(&self) -> (out: Vec<Node>)
        requires
            self.wf(),
        ensures
            forall|i: int| 0 <= i < out.len() ==> self.graph_view().node_in_region(#[trigger] out@[i]),
            forall|i: int, j: int|
                0 <= i < j < out.len() ==> self.graph_view().slot_spec(#[trigger] out@[i])
                    < self.graph_view().slot_spec(#[trigger] out@[j]),
            forall|x: Node|
                self.graph_view().node_in_region(x) ==> (#[trigger] out@.contains(x)
                    <==> !self.graph_view().dispatched_at(x)),
    {
        self.graph.undispatched()
    }

    /// The scheduler stays well formed when only the graph's ready queue changed.
    proof fn lemma_wf_same_counts(self, s0: StemScheduler)
        requires
            s0.wf(),
            self.graph.wf(),
            self.graph.same_shape(s0.graph),
            self.graph.blocked_view() == s0.graph.blocked_view(),
            self.graph.dispatched_view() == s0.graph.dispatched_view(),
            self.in_flight == s0.in_flight,
            self.in_flight_count == s0.in_flight_count,
        ensures
            self.wf(),
    {
        Graph::lemma_backward_same_shape(s0.graph, self.graph);
        let g0 = s0.graph;
        let g = self.graph;
        assert forall|x: Node| #[trigger] g.node_in_region(x) implies g.blocked_at(x) == count_where(
            g.pred_spec(x),
            self.incomplete_fn(),
        ) by {
            Graph::lemma_same_shape(g, g0, x);
            g0.lemma_edges_wf(x);
            let ps = g0.pred_spec(x);
            assert forall|i: int| 0 <= i < ps.len() implies (self.incomplete_fn())(#[trigger] ps[i])
                == (s0.incomplete_fn())(ps[i]) by {
                Graph::lemma_same_shape(g, g0, ps[i]);
            }
            lemma_count_where_same(ps, self.incomplete_fn(), s0.incomplete_fn());
        }
    }

    /// A node handed out but not yet done still holds back everything it precedes.
    proof fn lemma_successor_waits(self, n: Node, x: Node)
        requires
            self.wf(),
            self.graph.node_in_region(n),
            (self.incomplete_fn())(n),
            self.graph.succ_spec(n).contains(x),
        ensures
            self.graph.blocked_at(x) > 0,
    {
        let g = self.graph;
        g.lemma_edges_wf(n);
        let k = choose|k: int| 0 <= k < g.succ_spec(n).len() && g.succ_spec(n)[k] == x;
        assert(g.node_in_region(g.succ_spec(n)[k]));
        g.lemma_edges_agree(n, x);
        let j = choose|j: int| 0 <= j < g.pred_spec(x).len() && g.pred_spec(x)[j] == n;
        lemma_count_where_positive(g.pred_spec(x), self.incomplete_fn(), j);
    }

    /// Handing out a compute node keeps every count: the node is still not done.
    proof fn lemma_settled_after_dispatch(self, s0: StemScheduler, n: Node)
        requires
            s0.wf(),
            s0.graph.node_in_region(n),
            !s0.graph.dispatched_at(n),
            self.graph.wf(),
            self.graph.same_shape(s0.graph),
            self.graph.blocked_view() == s0.graph.blocked_view(),
            self.graph.dispatched_view() == s0.graph.dispatched_view().update(s0.graph.slot_spec(n), true),
            self.in_flight@ == s0.in_flight@.update(s0.graph.slot_spec(n), true),
            self.in_flight_count == count_true(self.in_flight@),
        ensures
            self.wf(),
    {
        Graph::lemma_backward_same_shape(s0.graph, self.graph);
        let g0 = s0.graph;
        let g = self.graph;
        Graph::lemma_same_shape(g, g0, n);
        g0.lemma_idx_bound(n.s as int, n.t as int);
        assert forall|k: int| 0 <= k < self.in_flight@.len() && #[trigger] self.in_flight@[k] implies g.dispatched@[k] by {
            if k != g0.slot_spec(n) {
                assert(s0.in_flight@[k]);
            }
        }
        assert forall|x: Node| #[trigger] g.node_in_region(x) implies g.blocked_at(x) == count_where(
            g.pred_spec(x),
            self.incomplete_fn(),
        ) by {
            Graph::lemma_same_shape(g, g0, x);
            g0.lemma_edges_wf(x);
            let ps = g0.pred_spec(x);
            assert forall|i: int| 0 <= i < ps.len() implies (self.incomplete_fn())(#[trigger] ps[i])
                == (s0.incomplete_fn())(ps[i]) by {
                let p = ps[i];
                assert(g0.node_in_region(p));
                Graph::lemma_same_shape(g, g0, p);
                g0.lemma_idx_bound(p.s as int, p.t as int);
                if g0.slot_spec(p) == g0.slot_spec(n) {
                    g0.lemma_slot_injective(p, n);
                }
            }
            lemma_count_where_same(ps, self.incomplete_fn(), s0.incomplete_fn());
        }
    }

    /// Completing a node that was not done lowers exactly the counts of the nodes it precedes.
    proof fn lemma_settled_after_completion(self, s0: StemScheduler, n: Node)
        requires
            s0.wf(),
            s0.graph.node_in_region(n),
            (s0.incomplete_fn())(n),
            self.graph.wf(),
            self.graph.same_shape(s0.graph),
            self.graph.dispatched_at(n),
            !self.in_flight@[s0.graph.slot_spec(n)],
            self.in_flight@.len() == s0.in_flight@.len(),
            self.in_flight_count == count_true(self.in_flight@),
            forall|k: int| 0 <= k < self.in_flight@.len() && #[trigger] self.in_flight@[k] ==> self.graph.dispatched@[k],
            forall|x: Node|
                s0.graph.node_in_region(x) && x != n ==> (#[trigger] self.graph.dispatched_at(x))
                    == s0.graph.dispatched_at(x) && self.in_flight@[s0.graph.slot_spec(x)]
                    == s0.in_flight@[s0.graph.slot_spec(x)],
            forall|x: Node|
                s0.graph.node_in_region(x) ==> #[trigger] self.graph.blocked_view()[s0.graph.slot_spec(x)]
                    == s0.graph.blocked_at(x) - if s0.graph.succ_spec(n).contains(x) {
                    1int
                } else {
                    0int
                },
        ensures
            self.wf(),
    {
        Graph::lemma_backward_same_shape(s0.graph, self.graph);
        let g0 = s0.graph;
        let g = self.graph;
        Graph::lemma_same_shape(g, g0, n);
        assert forall|x: Node| #[trigger] g.node_in_region(x) implies g.blocked_at(x) == count_where(
            g.pred_spec(x),
            self.incomplete_fn(),
        ) by {
            Graph::lemma_same_shape(g, g0, x);
            g0.lemma_edges_wf(x);
            g0.lemma_edges_agree(n, x);
            let ps = g0.pred_spec(x);
            assert forall|i: int| 0 <= i < ps.len() && ps[i] != n implies (s0.incomplete_fn())(
                #[trigger] ps[i],
            ) == (self.incomplete_fn())(ps[i]) by {
                let p = ps[i];
                assert(g0.node_in_region(p));
                Graph::lemma_same_shape(g, g0, p);
            }
            lemma_count_where_step(ps, s0.incomplete_fn(), self.incomplete_fn(), n);
        }
    }
}

} // verus!

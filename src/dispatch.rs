use vstd::prelude::*;
use vstd::arithmetic::div_mod::{lemma_fundamental_div_mod, lemma_fundamental_div_mod_converse};

verus! {

/// The fan-out policy of a fragment.
#[derive(Clone, Copy, Debug, PartialEq, Eq, Structural)]
pub enum DispatchKind {
    /// Cycles rows across the outputs in declaration order.
    RoundRobin,
    /// Routes a row by the hash of one key column.
    Hash { column: u32 },
    /// Copies every row to every output.
    Broadcast,
    /// Sends every row to the single output.
    Simple,
    /// Discards every row.
    Blackhole,
}

/// Whether a policy can serve `outputs` outputs.
pub open spec fn arity_ok(kind: DispatchKind, outputs: nat) -> bool {
    match kind {
        DispatchKind::Simple => outputs == 1,
        DispatchKind::Blackhole => outputs == 0,
        _ => outputs >= 1,
    }
}

/// Checks the number of outputs a policy is wired to.
pub fn check_arity(kind: DispatchKind, outputs: usize) -> (r: bool)
    ensures
        r == arity_ok(kind, outputs as nat),
{
    match kind {
        DispatchKind::Simple => outputs == 1,
        DispatchKind::Blackhole => outputs == 0,
        _ => outputs >= 1,
    }
}

pub const HASH_MODULUS: u64 = 4294967291;

pub const HASH_MULTIPLIER: u64 = 2654435761;

/// The hash of one key value.
pub open spec fn key_hash(v: i64) -> u64 {
    ((((v as u64) % HASH_MODULUS) as int * HASH_MULTIPLIER as int) % HASH_MODULUS as int) as u64
}

/// Hashes one key value.
pub fn hash_key(v: i64) -> (r: u64)
    ensures
        r == key_hash(v),
{
    let x: u64 = (v as u64) % HASH_MODULUS;
    assert(x as int * HASH_MULTIPLIER as int <= u64::MAX) by (nonlinear_arith)
        requires
            x < HASH_MODULUS,
    ;
    (x * HASH_MULTIPLIER) % HASH_MODULUS
}

/// The output index that hash dispatch picks for a key value among `n` outputs.
pub open spec fn hash_target(v: i64, n: nat) -> nat
    recommends
        n > 0,
{
    (key_hash(v) as nat) % n
}

/// The output indices that receive a row: `next` is the round-robin cursor, `key` the row's
/// key value under hash dispatch.
pub open spec fn targets(kind: DispatchKind, n: nat, next: nat, key: i64) -> Seq<usize> {
    match kind {
        DispatchKind::RoundRobin => seq![next as usize],
        DispatchKind::Hash { .. } => seq![hash_target(key, n) as usize],
        DispatchKind::Broadcast => Seq::new(n, |i: int| i as usize),
        DispatchKind::Simple => seq![0usize],
        DispatchKind::Blackhole => Seq::empty(),
    }
}

/// Decides, row by row, which of a dispatcher's outputs receive each row.
pub struct Router {
    pub kind: DispatchKind,
    pub num_outputs: usize,
    /// The round-robin cursor.
    pub next: usize,
    /// How many rows have been routed.
    pub routed: Ghost<nat>,
}

impl Router {
    pub open spec fn wf(&self) -> bool {
        &&& arity_ok(self.kind, self.num_outputs as nat)
        &&& self.next as nat == if self.kind is RoundRobin {
            self.routed@ % (self.num_outputs as nat)
        } else {
            0
        }
    }

    /// A router over `num_outputs` outputs that has routed no row.
    pub fn new(kind: DispatchKind, num_outputs: usize) -> (r: Router)
        requires
            arity_ok(kind, num_outputs as nat),
        ensures
            r.wf(),
            r.kind == kind,
            r.num_outputs == num_outputs,
            r.routed@ == 0,
    {
        let r = Router { kind, num_outputs, next: 0, routed: Ghost(0) };
        proof {
            if kind is RoundRobin {
                vstd::arithmetic::div_mod::lemma_small_mod(0, num_outputs as nat);
            }
        }
        r
    }

    /// The outputs that receive `row`. Round-robin sends the `k`-th routed row (from 0) to
    /// output `k % n`; hash dispatch reads the key from the policy's column.
    pub fn route(&mut self, row: &Vec<i64>) -> (r: Vec<usize>)
        requires
            old(self).wf(),
            old(self).kind matches DispatchKind::Hash { column } ==> (column as int) < row@.len(),
        ensures
            final(self).wf(),
            final(self).kind == old(self).kind,
            final(self).num_outputs == old(self).num_outputs,
            final(self).routed@ == old(self).routed@ + 1,
            r@ == targets(
                old(self).kind,
                old(self).num_outputs as nat,
                (if old(self).num_outputs > 0 {
                    old(self).routed@ % (old(self).num_outputs as nat)
                } else {
                    0
                }),
                match old(self).kind {
                    DispatchKind::Hash { column } => row@[column as int],
                    _ => 0,
                },
            ),
    {
        let n = self.num_outputs;
        let ghost k = self.routed@;
        let mut out: Vec<usize> = Vec::new();
        match self.kind {
            DispatchKind::RoundRobin => {
                out.push(self.next);
                proof {
                    lemma_round_robin_step(k, n as nat);
                }
                self.next = if self.next + 1 == n {
                    0
                } else {
                    self.next + 1
                };
            },
            DispatchKind::Hash { column } => {
                let h = hash_key(row[column as usize]);
                out.push((h % (n as u64)) as usize);
            },
            DispatchKind::Broadcast => {
                let mut i: usize = 0;
                while i < n
                    invariant
                        i <= n,
                        out@ == Seq::new(i as nat, |j: int| j as usize),
                    decreases n - i,
                {
                    out.push(i);
                    i = i + 1;
                    assert(out@ =~= Seq::new(i as nat, |j: int| j as usize));
                }
            },
            DispatchKind::Simple => {
                out.push(0);
            },
            DispatchKind::Blackhole => {},
        }
        self.routed = Ghost(k + 1);
        assert(out@ =~= targets(
            self.kind,
            n as nat,
            (if n > 0 {
                k % (n as nat)
            } else {
                0
            }),
            match self.kind {
                DispatchKind::Hash { column } => row@[column as int],
                _ => 0,
            },
        ));
        out
    }
}

/// One round-robin step: the cursor after `k` rows, advanced by one and wrapped, is the
/// cursor after `k + 1` rows.
pub proof fn lemma_round_robin_step(k: nat, n: nat)
    requires
        n > 0,
    ensures
        (if k % n + 1 == n {
            0
        } else {
            k % n + 1
        }) == (k + 1) % n,
{
    lemma_fundamental_div_mod(k as int, n as int);
    let q = k as int / n as int;
    let r = k as int % n as int;
    assert(k as int == q * n + r) by {
        vstd::arithmetic::mul::lemma_mul_is_commutative(q, n as int);
    }
    assert((q + 1) * n == q * n + n) by (nonlinear_arith);
    if r + 1 == n {
        lemma_fundamental_div_mod_converse((k + 1) as int, n as int, q + 1, 0);
    } else {
        lemma_fundamental_div_mod_converse((k + 1) as int, n as int, q, r + 1);
    }
}

/// How many of the row positions `0 .. m` round-robin sends to output `i` of `n`, that is
/// how many `p < m` have `p % n == i`.
pub open spec fn round_robin_count(m: nat, n: nat, i: nat) -> nat
    decreases m,
{
    if m == 0 {
        0
    } else {
        round_robin_count((m - 1) as nat, n, i) + if (m - 1) as nat % n == i {
            1nat
        } else {
            0nat
        }
    }
}

/// Round-robin balance: of `m` rows over `n` outputs, output `i` receives `m / n` rows, plus
/// one when `i < m % n`; so each output gets the floor or the ceiling of `m / n`.
pub proof fn lemma_round_robin_balance(m: nat, n: nat, i: nat)
    requires
        n > 0,
        i < n,
    ensures
        round_robin_count(m, n, i) == m / n + if i < m % n {
            1nat
        } else {
            0nat
        },
        round_robin_count(m, n, i) == m / n || round_robin_count(m, n, i) == m / n + 1,
        m % n == 0 ==> round_robin_count(m, n, i) == m / n,
    decreases m,
{
    if m == 0 {
        vstd::arithmetic::div_mod::lemma_small_mod(0, n);
        lemma_fundamental_div_mod_converse(0, n as int, 0, 0);
    } else {
        let k = (m - 1) as nat;
        lemma_round_robin_balance(k, n, i);
        lemma_fundamental_div_mod(k as int, n as int);
        let q = k as int / n as int;
        let r = k as int % n as int;
        assert(k as int == q * n + r) by {
            vstd::arithmetic::mul::lemma_mul_is_commutative(q, n as int);
        }
        assert((q + 1) * n == q * n + n) by (nonlinear_arith);
        if r + 1 == n {
            lemma_fundamental_div_mod_converse(m as int, n as int, q + 1, 0);
        } else {
            lemma_fundamental_div_mod_converse(m as int, n as int, q, r + 1);
        }
    }
}

/// How many of the rows at positions `0 .. m` round-robin sends to outputs `0 .. j` of `n`.
pub open spec fn round_robin_sum(m: nat, n: nat, j: nat) -> nat
    decreases j,
{
    if j == 0 {
        0
    } else {
        round_robin_sum(m, n, (j - 1) as nat) + round_robin_count(m, n, (j - 1) as nat)
    }
}

/// One more row adds one to the outputs `0 .. j` exactly when it lands among them.
proof fn lemma_round_robin_sum_step(m: nat, n: nat, j: nat)
    requires
        m > 0,
        n > 0,
    ensures
        round_robin_sum(m, n, j) == round_robin_sum((m - 1) as nat, n, j) + if ((m - 1) as nat
            % n) < j {
            1nat
        } else {
            0nat
        },
    decreases j,
{
    if j > 0 {
        lemma_round_robin_sum_step(m, n, (j - 1) as nat);
        assert(round_robin_count(m, n, (j - 1) as nat) == round_robin_count((m - 1) as nat, n, (j
            - 1) as nat) + if (m - 1) as nat % n == (j - 1) as nat {
            1nat
        } else {
            0nat
        });
    }
}

/// Round-robin loses and duplicates nothing: of `m` rows over `n` outputs, the counts that
/// the outputs receive add up to `m`.
pub proof fn lemma_round_robin_total(m: nat, n: nat)
    requires
        n > 0,
    ensures
        round_robin_sum(m, n, n) == m,
    decreases m,
{
    if m > 0 {
        lemma_round_robin_total((m - 1) as nat, n);
        lemma_round_robin_sum_step(m, n, n);
        assert(((m - 1) as nat % n) < n);
    } else {
        lemma_round_robin_zero(n, n);
    }
}

proof fn lemma_round_robin_zero(n: nat, j: nat)
    ensures
        round_robin_sum(0, n, j) == 0,
    decreases j,
{
    if j > 0 {
        lemma_round_robin_zero(n, (j - 1) as nat);
    }
}

/// Hash dispatch is deterministic: rows with equal key values go to the same output,
/// whatever the router's state.
pub proof fn lemma_hash_deterministic(column: u32, n: nat, next_a: nat, next_b: nat, a: i64, b: i64)
    requires
        n > 0,
        a == b,
    ensures
        targets(DispatchKind::Hash { column }, n, next_a, a) == targets(
            DispatchKind::Hash { column },
            n,
            next_b,
            b,
        ),
        targets(DispatchKind::Hash { column }, n, next_a, a).len() == 1,
        targets(DispatchKind::Hash { column }, n, next_a, a)[0] < n,
{
}

} // verus!

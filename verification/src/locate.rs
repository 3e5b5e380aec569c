//! Execution spectrum S[test, node] ∈ {0,1} over a test suite: which nodes
//! each test's evaluation consumed on the path to the root, and which tests
//! failed.
use vstd::prelude::*;

verus! {

pub struct Spectrum {
    /// row-major: covered[test * n_nodes + node]
    pub covered: Vec<bool>,
    pub failed: Vec<bool>,
    pub n_nodes: usize,
}

impl Spectrum {
    /// Test `t` covered `node`.
    pub open spec fn cov(&self, t: int, node: int) -> bool {
        self.covered@[t * self.n_nodes + node]
    }

    /// Among the first `k` tests, how many have coverage `c` of `node` and
    /// outcome `f` (failed or not).
    pub open spec fn tally(&self, node: int, c: bool, f: bool, k: int) -> nat
        decreases k,
    {
        if k <= 0 {
            0
        } else {
            self.tally(node, c, f, k - 1) + if self.cov(k - 1, node) == c && self.failed@[k
                - 1] == f {
                1nat
            } else {
                0nat
            }
        }
    }

    /// Every test's row holds `node`.
    pub open spec fn rows_cover(&self, node: int) -> bool {
        self.failed@.len() == 0 || (self.failed@.len() - 1) * self.n_nodes + node
            < self.covered@.len()
    }

    /// (ef, ep, nf, np): executed/not-executed × failed/passed.
    pub fn counts(&self, node: usize) -> (r: (u64, u64, u64, u64))
        requires
            self.rows_cover(node as int),
        ensures
            r.0 == self.tally(node as int, true, true, self.failed@.len() as int),
            r.1 == self.tally(node as int, true, false, self.failed@.len() as int),
            r.2 == self.tally(node as int, false, true, self.failed@.len() as int),
            r.3 == self.tally(node as int, false, false, self.failed@.len() as int),
    {
        let mut ef: u64 = 0;
        let mut ep: u64 = 0;
        let mut nf: u64 = 0;
        let mut np: u64 = 0;
        let n = self.failed.len();
        let cl = self.covered.len();
        let mut t: usize = 0;
        while t < n
            invariant
                n == self.failed@.len(),
                cl == self.covered@.len(),
                self.rows_cover(node as int),
                t <= n,
                ef == self.tally(node as int, true, true, t as int),
                ep == self.tally(node as int, true, false, t as int),
                nf == self.tally(node as int, false, true, t as int),
                np == self.tally(node as int, false, false, t as int),
                ef + ep + nf + np == t,
            decreases n - t,
        {
            proof {
                let m = self.n_nodes as int;
                assert(t * m <= (n - 1) * m) by (nonlinear_arith)
                    requires
                        t < n,
                        m >= 0,
                ;
                assert((n - 1) * m + node < self.covered@.len());
                assert(t * m + node < self.covered@.len());
                assert(t * self.n_nodes + node < usize::MAX);
            }
            let prod = t * self.n_nodes;
            let idx = prod + node;
            let c = self.covered[idx];
            let f = self.failed[t];
            if c && f {
                ef += 1;
            } else if c {
                ep += 1;
            } else if f {
                nf += 1;
            } else {
                np += 1;
            }
            t += 1;
        }
        (ef, ep, nf, np)
    }
}

} // verus!

//! The output of promotion. A `VerifiedTerm` pairs a term with the
//! certificate of the equivalence test it passed; the pair is built only by
//! the promotion that ran that test.
use vstd::prelude::*;
use crate::term::Term;

verus! {

/// The environment a certificate was issued in.
#[derive(Debug, Clone)]
pub struct EnvFingerprint {
    pub target_triple: String,
    pub fma: bool,
    pub avx: bool,
    /// a behavioral pin of the math library (`behavioral:` + digest)
    pub libm: String,
}

/// What promotion claims of a term, and where the claim was established.
#[derive(Debug, Clone)]
pub struct Certificate {
    /// the rendered claim (tier, metric, quantification)
    pub claim_text: String,
    /// provenance: names of the rewrite rules applied
    pub rule_trace: Vec<String>,
    pub env: EnvFingerprint,
}

impl Certificate {
    pub fn claim(&self) -> (r: &String)
        ensures
            r@ == self.claim_text@,
    {
        &self.claim_text
    }
}

/// A promoted term.
#[derive(Debug, Clone)]
pub struct VerifiedTerm {
    term: Term,
    cert: Certificate,
}

impl VerifiedTerm {
    pub closed spec fn held_term(&self) -> Term {
        self.term
    }

    pub closed spec fn held_cert(&self) -> Certificate {
        self.cert
    }

    /// Pairs a term with the certificate that records its equivalence
    /// test. Private to the crate, so that no caller mints a promoted term;
    /// the test that earns a certificate samples floats, and no function of
    /// this library runs it.
    #[allow(dead_code)]
    pub(crate) fn from_gate(term: Term, cert: Certificate) -> (v: VerifiedTerm)
        ensures
            v.held_term() == term,
            v.held_cert() == cert,
    {
        VerifiedTerm { term, cert }
    }

    pub fn term(&self) -> (r: &Term)
        ensures
            *r == self.held_term(),
    {
        &self.term
    }

    pub fn certificate(&self) -> (r: &Certificate)
        ensures
            *r == self.held_cert(),
    {
        &self.cert
    }

    /// Attach provenance (applied rule names) to the certificate. This is
    /// annotation, not evidence: it changes what the trace says was done,
    /// never the term, the claim or the environment.
    pub fn annotate_rule_trace(&mut self, trace: Vec<String>)
        ensures
            final(self).held_term() == old(self).held_term(),
            final(self).held_cert().rule_trace == trace,
            final(self).held_cert().claim_text == old(self).held_cert().claim_text,
            final(self).held_cert().env == old(self).held_cert().env,
    {
        self.cert.rule_trace = trace;
    }
}

} // verus!

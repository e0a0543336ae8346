//! What the scheduler and the interpreter need to know about one domain of the
//! domain interface table.
//!
//! The scalar `S` of a domain and its residual `c = 1 * (1 + |S| * f)` are
//! floating-point quantities computed outside the verified core; the verified
//! code only carries their IEEE-754 bit patterns and the integer views of them
//! that the kernel logic reads.

use vstd::prelude::*;

verus! {

/// Number of covered domain interfaces in the registry.
pub const DOMAIN_COUNT: usize = 530;

/// Registry kind of a domain interface.
#[derive(Clone, Copy, Debug, PartialEq, Eq, Structural)]
pub enum DomainKind {
    Core,
    Extension,
    Other,
}

/// Precomputed evaluation of one domain interface.
#[derive(Clone, Copy, Debug)]
pub struct DomainEval {
    /// Registry kind (`core`, `extension`, anything else).
    pub kind: DomainKind,
    /// Bits of the scalar `S` of the domain.
    pub s_bits: u64,
    /// Bits of the residual prediction `c` for a unit measurement.
    pub c_bits: u64,
    /// Sign of `S` as a trit (+1, 0, -1).
    pub trit: i8,
    /// `S * 1e6`, converted to `i32` as the interpreter's panel evaluation does.
    pub s_micro: i32,
    /// The residual `c` is a finite number.
    pub residual_finite: bool,
}

/// Domain counts of a walk over the whole table.
#[derive(Clone, Copy, Debug)]
pub struct DomainCounts {
    pub total: u32,
    pub core: u32,
    pub extension: u32,
    pub other: u32,
    /// Domains with `S > 0` (trit +1).
    pub emerge: u32,
    /// Domains with `S < 0` (trit -1).
    pub damp: u32,
    /// Domains with `S` indistinguishable from 0 (trit 0).
    pub zero: u32,
    pub residual_finite: u32,
}

/// Number of domains in `s` that satisfy `p`.
pub open spec fn count_where(s: Seq<DomainEval>, p: spec_fn(DomainEval) -> bool) -> nat
    decreases s.len(),
{
    if s.len() == 0 {
        0
    } else {
        count_where(s.drop_last(), p) + if p(s.last()) { 1nat } else { 0nat }
    }
}

/// Holds of the domains of kind `k`.
pub open spec fn kind_is(k: DomainKind) -> spec_fn(DomainEval) -> bool {
    |d: DomainEval| d.kind == k
}

/// Holds of the domains whose sign trit is positive (`sign > 0`), negative (`sign < 0`) or zero.
pub open spec fn trit_sign_is(sign: int) -> spec_fn(DomainEval) -> bool {
    |d: DomainEval| if sign > 0 { d.trit > 0 } else if sign < 0 { d.trit < 0 } else { d.trit == 0 }
}

/// Holds of the domains whose residual is finite.
pub open spec fn residual_is_finite() -> spec_fn(DomainEval) -> bool {
    |d: DomainEval| d.residual_finite
}

proof fn lemma_count_where_le(s: Seq<DomainEval>, p: spec_fn(DomainEval) -> bool)
    ensures
        count_where(s, p) <= s.len(),
    decreases s.len(),
{
    if s.len() > 0 {
        lemma_count_where_le(s.drop_last(), p);
    }
}

/// Every domain has exactly one kind and exactly one sign, so the kind counts
/// and the sign counts each add up to the number of domains.
pub proof fn lemma_counts_partition(s: Seq<DomainEval>)
    ensures
        count_where(s, kind_is(DomainKind::Core)) + count_where(s, kind_is(DomainKind::Extension))
            + count_where(s, kind_is(DomainKind::Other)) == s.len(),
        count_where(s, trit_sign_is(1)) + count_where(s, trit_sign_is(-1)) + count_where(s, trit_sign_is(0))
            == s.len(),
    decreases s.len(),
{
    if s.len() > 0 {
        lemma_counts_partition(s.drop_last());
    }
}

/// A count is the number of domains that the property picks out: the length
/// of the table filtered by it.
pub proof fn lemma_count_is_filter_len(s: Seq<DomainEval>, p: spec_fn(DomainEval) -> bool)
    ensures
        count_where(s, p) == s.filter(p).len(),
    decreases s.len(),
{
    reveal(Seq::filter);
    if s.len() > 0 {
        lemma_count_is_filter_len(s.drop_last(), p);
    }
}

/// The classes counted: a domain emerges when its sign trit is positive, is
/// damped when it is negative and is neutral when it is zero; the kind classes
/// are its registry kind; the residual class is its finite residual.
pub proof fn lemma_count_classes(d: DomainEval, k: DomainKind)
    ensures
        trit_sign_is(1)(d) <==> d.trit > 0,
        trit_sign_is(-1)(d) <==> d.trit < 0,
        trit_sign_is(0)(d) <==> d.trit == 0,
        kind_is(k)(d) <==> d.kind == k,
        residual_is_finite()(d) <==> d.residual_finite,
{
}

/// Counts the domains of the table by kind, by sign of `S`, and by whether the
/// residual is finite.
pub fn tally_domains(domains: &[DomainEval]) -> (c: DomainCounts)
    requires
        domains@.len() <= u32::MAX,
    ensures
        c.total == domains@.len(),
        c.core == count_where(domains@, kind_is(DomainKind::Core)),
        c.extension == count_where(domains@, kind_is(DomainKind::Extension)),
        c.other == count_where(domains@, kind_is(DomainKind::Other)),
        c.emerge == count_where(domains@, trit_sign_is(1)),
        c.damp == count_where(domains@, trit_sign_is(-1)),
        c.zero == count_where(domains@, trit_sign_is(0)),
        c.residual_finite == count_where(domains@, residual_is_finite()),
{
    let mut c = DomainCounts {
        total: 0,
        core: 0,
        extension: 0,
        other: 0,
        emerge: 0,
        damp: 0,
        zero: 0,
        residual_finite: 0,
    };
    let mut i: usize = 0;
    while i < domains.len()
        invariant
            0 <= i <= domains@.len(),
            domains@.len() <= u32::MAX,
            ({
                let pre = domains@.subrange(0, i as int);
                &&& c.total == i
                &&& c.core == count_where(pre, kind_is(DomainKind::Core))
                &&& c.extension == count_where(pre, kind_is(DomainKind::Extension))
                &&& c.other == count_where(pre, kind_is(DomainKind::Other))
                &&& c.emerge == count_where(pre, trit_sign_is(1))
                &&& c.damp == count_where(pre, trit_sign_is(-1))
                &&& c.zero == count_where(pre, trit_sign_is(0))
                &&& c.residual_finite == count_where(pre, residual_is_finite())
            }),
        decreases domains@.len() - i,
    {
        let d = domains[i];
        proof {
            let pre = domains@.subrange(0, i as int);
            let post = domains@.subrange(0, i + 1);
            assert(post.drop_last() =~= pre);
            assert(post.last() == d);
            lemma_count_where_le(pre, kind_is(DomainKind::Core));
            lemma_count_where_le(pre, kind_is(DomainKind::Extension));
            lemma_count_where_le(pre, kind_is(DomainKind::Other));
            lemma_count_where_le(pre, trit_sign_is(1));
            lemma_count_where_le(pre, trit_sign_is(-1));
            lemma_count_where_le(pre, trit_sign_is(0));
            lemma_count_where_le(pre, residual_is_finite());
        }
        c.total = c.total + 1;
        if d.kind == DomainKind::Core {
            c.core = c.core + 1;
        } else if d.kind == DomainKind::Extension {
            c.extension = c.extension + 1;
        } else {
            c.other = c.other + 1;
        }
        if d.trit > 0 {
            c.emerge = c.emerge + 1;
        } else if d.trit < 0 {
            c.damp = c.damp + 1;
        } else {
            c.zero = c.zero + 1;
        }
        if d.residual_finite {
            c.residual_finite = c.residual_finite + 1;
        }
        i = i + 1;
    }
    proof {
        assert(domains@.subrange(0, domains@.len() as int) =~= domains@);
    }
    c
}

} // verus!

use reality_os::domain::{tally_domains, DomainEval, DomainKind, DOMAIN_COUNT};

fn d(kind: DomainKind, trit: i8, finite: bool) -> DomainEval {
    DomainEval { kind, s_bits: 0, c_bits: 0, trit, s_micro: 0, residual_finite: finite }
}

#[test]
fn tally_counts_kinds_signs_and_finite_residuals() {
    let t = [
        d(DomainKind::Core, 1, true),
        d(DomainKind::Extension, -1, true),
        d(DomainKind::Other, 0, false),
        d(DomainKind::Core, 1, true),
    ];
    let c = tally_domains(&t);
    assert_eq!(c.total, 4);
    assert_eq!((c.core, c.extension, c.other), (2, 1, 1));
    assert_eq!((c.emerge, c.damp, c.zero), (2, 1, 1));
    assert_eq!(c.residual_finite, 3);
    assert_eq!(c.core + c.extension + c.other, c.total);
    assert_eq!(c.emerge + c.damp + c.zero, c.total);
}

#[test]
fn tally_of_empty_table() {
    let c = tally_domains(&[]);
    assert_eq!((c.total, c.core, c.emerge, c.residual_finite), (0, 0, 0, 0));
    assert_eq!(DOMAIN_COUNT, 530);
}

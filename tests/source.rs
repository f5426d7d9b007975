use moip_rtp::source::{ContributingSource, SynchronizationSource};

#[test]
fn conversions_keep_the_value() {
    for v in [0u32, 1, 0x1234_5678, u32::MAX] {
        let c = SynchronizationSource(v).to_contributing();
        assert_eq!(c, ContributingSource(v));
        let s = ContributingSource(v).to_synchronization();
        assert_eq!(s, SynchronizationSource(v));
    }
}

#[test]
fn conversions_are_mutually_inverse() {
    for v in [0u32, 42, 0xdead_beef, u32::MAX] {
        let c = ContributingSource(v);
        assert_eq!(c.to_synchronization().to_contributing(), c);
        let s = SynchronizationSource(v);
        assert_eq!(s.to_contributing().to_synchronization(), s);
        let via_from: ContributingSource = s.into();
        assert_eq!(via_from, ContributingSource(v));
        let back: SynchronizationSource = via_from.into();
        assert_eq!(back, s);
    }
}

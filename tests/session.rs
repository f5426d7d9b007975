use moip_rtp::session::{AllocationError, Session, MAX_ALLOCATION_ATTEMPTS};
use moip_rtp::source::{ContributingSourceList, SynchronizationSource};

#[test]
fn test_forming_contributing_source_list() {
    let mut rtp_session = Session::new();
    let microphone_source = rtp_session.add_new_source().unwrap();
    let external_card_source = rtp_session.add_new_source().unwrap();

    let mut mixer_sources = ContributingSourceList::default();

    mixer_sources.push(microphone_source.into());
    mixer_sources.push(external_card_source.into());

    assert_eq!(mixer_sources.len(), 2);
    assert_eq!(mixer_sources[0].0, microphone_source.0);
    assert_eq!(mixer_sources[1].0, external_card_source.0);
}

#[test]
fn allocated_sources_are_pairwise_distinct() {
    let mut session = Session::new();
    let mut seen: Vec<u32> = Vec::new();
    for _ in 0..200 {
        let s = session.add_new_source().unwrap();
        assert!(!seen.contains(&s.0));
        assert!(session.contains(s));
        seen.push(s.0);
    }
}

#[test]
fn new_session_is_empty() {
    let session = Session::new();
    assert!(!session.contains(SynchronizationSource(0)));
    assert!(!session.contains(SynchronizationSource(u32::MAX)));
}

#[test]
fn add_source_reports_whether_it_was_free() {
    let mut session = Session::new();
    assert!(session.add_source(SynchronizationSource(7)));
    assert!(!session.add_source(SynchronizationSource(7)));
    assert!(session.contains(SynchronizationSource(7)));
    assert!(!session.contains(SynchronizationSource(8)));
}

#[test]
fn release_frees_a_source_for_reuse() {
    let mut session = Session::new();
    let s = session.add_new_source().unwrap();
    assert!(session.release(s));
    assert!(!session.contains(s));
    assert!(!session.release(s));
    assert!(session.add_source(s));
}

#[test]
fn sessions_are_independent() {
    let mut a = Session::new();
    let b = Session::new();
    let s = a.add_new_source().unwrap();
    assert!(a.contains(s));
    assert!(!b.contains(s));
}

#[test]
fn allocation_error_is_the_exhausted_condition() {
    let e = AllocationError::AllocationExhausted;
    assert_eq!(e, AllocationError::AllocationExhausted);
    assert_ne!(e, AllocationError::RandomSourceFailed);
    assert!(MAX_ALLOCATION_ATTEMPTS > 0);
}

#[test]
fn allocate_from_takes_the_first_free_candidate() {
    let mut session = Session::new();
    assert!(session.add_source(SynchronizationSource(5)));
    assert!(session.add_source(SynchronizationSource(6)));
    assert_eq!(
        session.allocate_from(&[5, 6, 9, 10]),
        Ok(SynchronizationSource(9))
    );
    assert!(session.contains(SynchronizationSource(9)));
    assert!(!session.contains(SynchronizationSource(10)));
}

#[test]
fn allocate_from_fails_when_every_candidate_is_taken() {
    let mut session = Session::new();
    assert!(session.add_source(SynchronizationSource(1)));
    assert!(session.add_source(SynchronizationSource(2)));
    assert_eq!(
        session.allocate_from(&[2, 1, 2]),
        Err(AllocationError::AllocationExhausted)
    );
    assert_eq!(
        session.allocate_from(&[]),
        Err(AllocationError::AllocationExhausted)
    );
    assert!(!session.contains(SynchronizationSource(0)));
}

#[test]
fn allocate_from_on_empty_session_takes_the_first_candidate() {
    let mut session = Session::new();
    assert_eq!(
        session.allocate_from(&[u32::MAX, 0]),
        Ok(SynchronizationSource(u32::MAX))
    );
}

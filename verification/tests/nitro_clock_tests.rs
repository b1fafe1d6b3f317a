use vlc::nitro_clock::{
    check_pcrs, process_update, AttestationDocument, ConstructionError, NitroEnclavesClock,
    Update, VerifyError, WorkerError,
};
use vlc::ordinary_clock::OrdinaryClock;

fn genesis_clock() -> NitroEnclavesClock {
    NitroEnclavesClock::from_genesis(OrdinaryClock::new()).unwrap()
}

fn document_for(clock: &OrdinaryClock, pcrs: Vec<(u64, Vec<u8>)>) -> AttestationDocument {
    AttestationDocument {
        pcrs,
        user_data: Some(clock.calculate_sha256().to_vec()),
    }
}

#[test]
fn from_genesis_accepts_genesis() {
    let wrapped = NitroEnclavesClock::from_genesis(OrdinaryClock::new()).unwrap();
    assert_eq!(wrapped.plain, OrdinaryClock::new());
    assert!(wrapped.document.is_empty());

    let all_zero = OrdinaryClock::from_entries(&vec![(0, 0), (5, 0)]);
    assert!(NitroEnclavesClock::from_genesis(all_zero).is_ok());
}

#[test]
fn from_genesis_rejects_advanced_clock() {
    let advanced = OrdinaryClock::from_entries(&vec![(0, 1)]);
    assert_eq!(
        NitroEnclavesClock::from_genesis(advanced),
        Err(ConstructionError::NotGenesis)
    );
}

#[test]
fn verify_genesis_needs_no_document() {
    let clock = genesis_clock();
    assert!(matches!(clock.verify(None), Ok(None)));
}

#[test]
fn verify_rejects_unparsed_document() {
    let plain = OrdinaryClock::from_entries(&vec![(1, 1)]);
    let clock = NitroEnclavesClock { plain, document: vec![1, 2, 3] };
    assert_eq!(
        clock.verify(None),
        Err(VerifyError::StaleOrInvalidDocument)
    );
}

#[test]
fn verify_binds_fingerprint() {
    let plain = OrdinaryClock::from_entries(&vec![(1, 1)]);
    let good = document_for(&plain, vec![]);
    let clock = NitroEnclavesClock { plain: plain.clone(), document: vec![0] };
    let verdict = clock.verify(Some(good));
    assert!(matches!(verdict, Ok(Some(_))));

    let other = OrdinaryClock::from_entries(&vec![(1, 2)]);
    let wrong = document_for(&other, vec![]);
    assert_eq!(
        clock.verify(Some(wrong)),
        Err(VerifyError::FingerprintMismatch)
    );

    let missing = AttestationDocument { pcrs: vec![], user_data: None };
    assert_eq!(
        clock.verify(Some(missing)),
        Err(VerifyError::FingerprintMismatch)
    );
}

#[test]
fn verify_with_policy_checks_registers_before_fingerprint() {
    let plain = OrdinaryClock::from_entries(&vec![(1, 1)]);
    let clock = NitroEnclavesClock { plain: plain.clone(), document: vec![1] };
    let expected = vec![vec![7u8]];

    // Both the register and the fingerprint are wrong: the register
    // mismatch is reported first.
    let other = OrdinaryClock::from_entries(&vec![(9, 9)]);
    let bad_both = AttestationDocument {
        pcrs: vec![(0, vec![8])],
        user_data: Some(other.calculate_sha256().to_vec()),
    };
    assert_eq!(
        clock.verify_with_policy(Some(bad_both), &expected),
        Err(VerifyError::PcrMismatch { index: 0 })
    );

    let bad_fingerprint = AttestationDocument {
        pcrs: vec![(0, vec![7])],
        user_data: Some(other.calculate_sha256().to_vec()),
    };
    assert_eq!(
        clock.verify_with_policy(Some(bad_fingerprint), &expected),
        Err(VerifyError::FingerprintMismatch)
    );

    let good = document_for(&plain, vec![(0, vec![7])]);
    assert!(matches!(
        clock.verify_with_policy(Some(good), &expected),
        Ok(Some(_))
    ));
    assert!(matches!(
        genesis_clock().verify_with_policy(None, &expected),
        Ok(None)
    ));
}

#[test]
fn check_pcrs_reports_first_mismatch() {
    let doc = AttestationDocument {
        pcrs: vec![(0, vec![1, 1]), (1, vec![2, 2]), (2, vec![3, 3])],
        user_data: None,
    };
    assert_eq!(
        check_pcrs(&doc, &vec![vec![1, 1], vec![2, 2], vec![3, 3]]),
        Ok(())
    );
    assert_eq!(
        check_pcrs(&doc, &vec![vec![1, 1], vec![9, 9], vec![0, 0]]),
        Err(VerifyError::PcrMismatch { index: 1 })
    );
    assert_eq!(
        check_pcrs(&doc, &vec![vec![1, 1], vec![2, 2], vec![3, 3], vec![4, 4]]),
        Err(VerifyError::PcrMismatch { index: 3 })
    );
    assert_eq!(check_pcrs(&doc, &vec![]), Ok(()));
}

#[test]
fn process_update_advances_and_fingerprints() {
    let prev = genesis_clock();
    let dep = genesis_clock();
    let request = Update(prev, vec![dep], 7);
    let parsed = vec![None, None];
    let expected_pcrs: Vec<Vec<u8>> = vec![];

    let (updated, fingerprint) = process_update(&request, &parsed, &expected_pcrs).unwrap();
    assert_eq!(updated.get(7), Some(1));
    assert_eq!(fingerprint, updated.calculate_sha256());
}

#[test]
fn process_update_merges_dependencies() {
    let prev = NitroEnclavesClock {
        plain: OrdinaryClock::from_entries(&vec![(1, 4)]),
        document: vec![9],
    };
    let dep_plain = OrdinaryClock::from_entries(&vec![(1, 2), (2, 6)]);
    let dep = NitroEnclavesClock {
        plain: dep_plain.clone(),
        document: vec![8],
    };
    let parsed = vec![
        Some(document_for(&prev.plain, vec![])),
        Some(document_for(&dep_plain, vec![])),
    ];
    let request = Update(prev, vec![dep], 1);

    let (updated, _) = process_update(&request, &parsed, &vec![]).unwrap();
    assert_eq!(updated.get(1), Some(5));
    assert_eq!(updated.get(2), Some(6));
}

#[test]
fn process_update_drops_unattested_input() {
    let bad = NitroEnclavesClock {
        plain: OrdinaryClock::from_entries(&vec![(1, 1)]),
        document: vec![],
    };
    let request = Update(bad, vec![], 1);
    assert_eq!(
        process_update(&request, &vec![None], &vec![]),
        Err(WorkerError::Verify(VerifyError::StaleOrInvalidDocument))
    );
}

#[test]
fn process_update_checks_worker_registers() {
    let plain = OrdinaryClock::from_entries(&vec![(1, 1)]);
    let clock = NitroEnclavesClock { plain: plain.clone(), document: vec![1] };
    let doc = document_for(&plain, vec![(0, vec![7])]);
    let request = Update(clock, vec![], 1);
    assert_eq!(
        process_update(&request, &vec![Some(doc)], &vec![vec![8]]),
        Err(WorkerError::Verify(VerifyError::PcrMismatch { index: 0 }))
    );
}

use vlc::codec::{
    decode_frame, decode_update, decode_update_ok, encode_frame, encode_update, encode_update_ok,
    ProtocolError,
};
use vlc::nitro_clock::{NitroEnclavesClock, Update, UpdateOk};
use vlc::ordinary_clock::OrdinaryClock;
use vlc::portal::{session_verdict, LoopEnd, SessionError};

fn sample_clock(entries: Vec<(u64, u64)>, document: Vec<u8>) -> NitroEnclavesClock {
    NitroEnclavesClock {
        plain: OrdinaryClock::from_entries(&entries),
        document,
    }
}

#[test]
fn update_round_trip() {
    let request = Update(
        sample_clock(vec![(1, 4), (3, 9)], vec![0xaa, 0xbb]),
        vec![
            sample_clock(vec![(2, 7)], vec![]),
            sample_clock(vec![], vec![1, 2, 3, 4]),
        ],
        3,
    );
    let bytes = encode_update(&request);
    let decoded = decode_update(&bytes).unwrap();

    assert_eq!(decoded.0.plain, request.0.plain);
    assert_eq!(decoded.0.document, request.0.document);
    assert_eq!(decoded.1.len(), request.1.len());
    for i in 0..request.1.len() {
        assert_eq!(decoded.1[i].plain, request.1[i].plain);
        assert_eq!(decoded.1[i].document, request.1[i].document);
    }
    assert_eq!(decoded.2, request.2);
}

#[test]
fn update_ok_round_trip() {
    let response: UpdateOk<NitroEnclavesClock> = (
        42,
        sample_clock(vec![(1, 1), (2, 2)], vec![9, 9, 9]),
        vec![10, 20, 30, 40, 50],
    );
    let bytes = encode_update_ok(&response);
    let decoded = decode_update_ok(&bytes).unwrap();

    assert_eq!(decoded.0, 42);
    assert_eq!(decoded.1.plain, response.1.plain);
    assert_eq!(decoded.1.document, response.1.document);
    assert_eq!(decoded.2, response.2);
}

#[test]
fn decode_rejects_truncated_payload() {
    let request = Update(sample_clock(vec![(1, 1)], vec![]), vec![], 1);
    let mut bytes = encode_update(&request);
    bytes.pop();
    assert!(matches!(
        decode_update(&bytes),
        Err(ProtocolError::Malformed)
    ));
}

#[test]
fn decode_rejects_trailing_bytes() {
    let request = Update(sample_clock(vec![(1, 1)], vec![]), vec![], 1);
    let mut bytes = encode_update(&request);
    bytes.push(0);
    assert!(matches!(
        decode_update(&bytes),
        Err(ProtocolError::Malformed)
    ));
}

#[test]
fn frame_round_trip() {
    let payload = vec![5, 6, 7, 8];
    let mut stream = encode_frame(&payload);
    let tail = encode_frame(&vec![9]);
    stream.extend_from_slice(&tail);

    let (first, consumed) = decode_frame(&stream).unwrap();
    assert_eq!(first, payload);
    assert_eq!(consumed, 8 + 4);

    let rest: Vec<u8> = stream[consumed..].to_vec();
    let (second, consumed2) = decode_frame(&rest).unwrap();
    assert_eq!(second, vec![9]);
    assert_eq!(consumed2, rest.len());
}

#[test]
fn frame_rejects_short_buffer() {
    let mut frame = encode_frame(&vec![1, 2, 3]);
    frame.truncate(9);
    assert_eq!(decode_frame(&frame), Err(ProtocolError::Truncated));
    assert_eq!(decode_frame(&vec![1, 2]), Err(ProtocolError::Truncated));
}

#[test]
fn portal_correlates_out_of_order_responses() {
    // Requests go out with ids 1, 2, 3; the worker replies in the order
    // 3, 1, 2. Whatever the arrival order, each decoded response carries
    // the id of the request it answers, so no response is misattributed.
    let clock_for = |id: u64| sample_clock(vec![(id, id)], vec![id as u8]);
    let ids: Vec<u64> = vec![1, 2, 3];
    let arrival: Vec<u64> = vec![3, 1, 2];

    let wire: Vec<Vec<u8>> = arrival
        .iter()
        .map(|&id| encode_update_ok(&(id, clock_for(id), vec![id * 100])))
        .collect();

    let mut delivered: Vec<(u64, NitroEnclavesClock, Vec<u64>)> = Vec::new();
    for bytes in &wire {
        delivered.push(decode_update_ok(bytes).unwrap());
    }

    for &id in &ids {
        let matches: Vec<_> = delivered.iter().filter(|ok| ok.0 == id).collect();
        assert_eq!(matches.len(), 1);
        let ok = matches[0];
        assert_eq!(ok.1.plain, clock_for(id).plain);
        assert_eq!(ok.2, vec![id * 100]);
    }
}

#[test]
fn session_ends_with_first_loop() {
    assert_eq!(session_verdict(LoopEnd::WriterDrained), Ok(()));
    assert_eq!(session_verdict(LoopEnd::WriterFailed), Err(SessionError::Io));
    assert_eq!(session_verdict(LoopEnd::ReaderFailed), Err(SessionError::Io));
    assert_eq!(
        session_verdict(LoopEnd::ReaderMalformed),
        Err(SessionError::Protocol(ProtocolError::Malformed))
    );
}

use binius64::transcript::{
    decode_scalar, encode_scalar, Options, ProverTranscript, TranscriptError, VerifierTranscript,
};

#[test]
fn transcript_round_trip_of_messages_decommitments_and_observations() {
    let mut prover = ProverTranscript::new();

    prover.message().write_scalar(0x11111111222222223333333344444444);
    prover.message().write_scalar(0xAAAAAAAABBBBBBBBCCCCCCCCDDDDDDDD);
    prover.decommitment().write_scalar(0x5555555566666666777777778888888);
    prover.observe().write_scalar(0xFFFFFFFFEEEEEEEEDDDDDDDDCCCCCCCC);

    let prover_observed = prover.observed_bytes().to_vec();
    let mut verifier = prover.into_verifier();

    let msg1 = verifier.message().read_scalar().unwrap();
    let msg2 = verifier.message().read_scalar().unwrap();
    assert_eq!(msg1, 0x11111111222222223333333344444444);
    assert_eq!(msg2, 0xAAAAAAAABBBBBBBBCCCCCCCCDDDDDDDD);

    let decommit = verifier.decommitment().read_scalar().unwrap();
    assert_eq!(decommit, 0x5555555566666666777777778888888);

    verifier.observe().write_scalar(0xFFFFFFFFEEEEEEEEDDDDDDDDCCCCCCCC);

    // Both challengers absorbed the same bytes, so they would sample the same challenge.
    assert_eq!(verifier.observed_bytes(), prover_observed.as_slice());
    assert_eq!(verifier.finalize(), Ok(()));
}

#[test]
fn test_transcript_debug() {
    let options = Options { debug_assertions: true };
    let mut transcript = ProverTranscript::with_opts(options);

    transcript.message().write_debug("test_transcript_debug");
    transcript.into_verifier().message().read_debug("test_transcript_debug");
}

#[test]
fn debug_markers_are_skipped_when_off() {
    let mut transcript = ProverTranscript::new();
    transcript.message().write_debug("marker");
    assert!(transcript.finalize().is_empty());
}

#[test]
fn finalize_reports_unread_bytes() {
    let verifier = VerifierTranscript::new(vec![1, 2, 3]);
    assert_eq!(verifier.finalize(), Err(TranscriptError::TranscriptNotEmpty { remaining: 3 }));
}

#[test]
fn short_tape_reads_fail_without_consuming() {
    let mut verifier = VerifierTranscript::new(vec![1, 2, 3]);
    assert_eq!(verifier.message().read_scalar(), Err(TranscriptError::NotEnoughBytes));
    assert_eq!(verifier.remaining(), 3);
    let mut buf = [0u8; 2];
    assert_eq!(verifier.decommitment().read_bytes(&mut buf), Ok(()));
    assert_eq!(buf, [1, 2]);
    assert_eq!(verifier.remaining(), 1);
    assert!(verifier.observed_bytes().is_empty());
}

#[test]
fn scalar_slices_round_trip_and_short_slices_consume_complete_scalars() {
    let mut prover = ProverTranscript::new();
    prover.message().write_scalar_slice(&[1, 2, 3]);
    let proof = prover.finalize();
    assert_eq!(proof.len(), 48);

    let mut verifier = VerifierTranscript::new(proof.clone());
    assert_eq!(verifier.message().read_scalar_slice(3), Ok(vec![1, 2, 3]));
    assert_eq!(verifier.observed_bytes(), proof.as_slice());

    let mut verifier = VerifierTranscript::new(proof);
    assert_eq!(verifier.message().read_scalar_slice(4), Err(TranscriptError::NotEnoughBytes));
    assert_eq!(verifier.remaining(), 0);
}

#[test]
fn scalar_encoding_is_little_endian() {
    let bytes = encode_scalar(0x0102);
    assert_eq!(bytes[0], 0x02);
    assert_eq!(bytes[1], 0x01);
    assert_eq!(bytes.len(), 16);
    assert_eq!(decode_scalar(&bytes), 0x0102);
    assert_eq!(encode_scalar(u128::MAX), vec![0xff; 16]);
}

#[test]
fn decommitments_are_not_observed_and_observations_are_not_written() {
    let mut prover = ProverTranscript::new();
    prover.decommitment().write_bytes(&[7, 8]);
    prover.observe().write_bytes(&[9]);
    assert_eq!(prover.observed_bytes(), &[9]);
    assert_eq!(prover.finalize(), vec![7, 8]);
}

//! Folding transcripts.

use nova_tree::folding::hypernova::util::{create_folding_transcript, update_transcript};

fn challenge(label: &'static [u8], messages: &[(&'static [u8], &[u8])]) -> [u8; 32] {
    let mut t = create_folding_transcript(label);
    for (l, m) in messages {
        update_transcript(&mut t, l, m);
    }
    let mut out = [0u8; 32];
    t.challenge_bytes(b"challenge", &mut out);
    out
}

#[test]
fn same_log_same_challenge() {
    let a = challenge(b"fold", &[(b"x", b"123"), (b"y", b"456")]);
    let b = challenge(b"fold", &[(b"x", b"123"), (b"y", b"456")]);
    assert_eq!(a, b);
}

#[test]
fn every_part_of_the_log_counts() {
    let base = challenge(b"fold", &[(b"x", b"123")]);
    assert_ne!(base, challenge(b"other", &[(b"x", b"123")]));
    assert_ne!(base, challenge(b"fold", &[(b"z", b"123")]));
    assert_ne!(base, challenge(b"fold", &[(b"x", b"124")]));
    assert_ne!(base, challenge(b"fold", &[]));
}

//! Transcripts of the folding protocol, kept with `merlin`.

use vstd::prelude::*;

use merlin::Transcript;

verus! {

#[verifier::external_type_specification]
#[verifier::external_body]
pub struct ExTranscript(Transcript);

/// The labelled messages appended to a transcript, oldest first.  The
/// transcript's state, and so every challenge drawn from it, is a function
/// of this log.
pub uninterp spec fn transcript_log(t: Transcript) -> Seq<(Seq<u8>, Seq<u8>)>;

/// `b"dom-sep"`, the label under which a new transcript records its domain
/// separator.
pub open spec fn dom_sep_label() -> Seq<u8> {
    seq![100u8, 111u8, 109u8, 45u8, 115u8, 101u8, 112u8]
}

/// `merlin::Transcript::new`: a transcript that has appended `label` under
/// `b"dom-sep"` and nothing else.  `append_message` asserts that a message
/// length fits in a `u32`.
#[verifier::external_body]
fn transcript_new(label: &'static [u8]) -> (t: Transcript)
    requires
        label@.len() <= u32::MAX,
    ensures
        transcript_log(t) == seq![(dom_sep_label(), label@)],
{
    Transcript::new(label)
}

/// `merlin::Transcript::append_message`: appends `message` under `label`;
/// it asserts that the message length fits in a `u32`.
#[verifier::external_body]
fn transcript_append(t: &mut Transcript, label: &'static [u8], message: &[u8])
    requires
        message@.len() <= u32::MAX,
    ensures
        transcript_log(*final(t)) == transcript_log(*old(t)).push((label@, message@)),
{
    t.append_message(label, message)
}

/// A fresh transcript for folding, separated from others by `label`.
pub fn create_folding_transcript(label: &'static [u8]) -> (t: Transcript)
    requires
        label@.len() <= u32::MAX,
    ensures
        transcript_log(t) == seq![(dom_sep_label(), label@)],
{
    transcript_new(label)
}

/// Appends `data` to the transcript under `label`.
pub fn update_transcript(transcript: &mut Transcript, label: &'static [u8], data: &[u8])
    requires
        data@.len() <= u32::MAX,
    ensures
        transcript_log(*final(transcript)) == transcript_log(*old(transcript)).push((label@, data@)),
{
    transcript_append(transcript, label, data)
}

} // verus!

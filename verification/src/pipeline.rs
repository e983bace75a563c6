//! The tagging pipeline around one clipboard event: build the inference
//! request from the copied text and the captured frames, and fold the model
//! reply into the history. The outside work around it — capturing the screen,
//! posting the request, reading and writing the store file — is the caller's;
//! every decision in between is made here.

use vstd::prelude::*;
use vstd::string::StringExecFns;

use crate::codec;
use crate::frames;
use crate::history;
use crate::history::ClipboardHistory;
use crate::prompt;

verus! {

/// Why one clipboard event failed.
#[derive(Debug)]
pub enum TagError {
    /// Monitor enumeration or a frame grab failed; the payload is the
    /// reporter's text.
    Capture(String),
    /// Serializing a frame failed; the payload is the reporter's text.
    Encode(String),
    /// The transport or the model failed; the payload is the reporter's text.
    Inference(String),
    /// The model reply was not a JSON array of strings.
    Parse,
    /// The store could not be read or written; the payload is the reporter's
    /// text.
    Store(String),
}

impl TagError {
    /// The user-visible error text for this failure.
    pub fn message(&self) -> (r: String)
        ensures
            match self {
                TagError::Capture(s) => r@ == "Error: screen capture failed: "@ + s@,
                TagError::Encode(s) => r@ == "Error: frame encoding failed: "@ + s@,
                TagError::Inference(s) => r@ == "Error: inference failed: "@ + s@,
                TagError::Parse => r@ == "Error: the model reply is not a JSON array of strings"@,
                TagError::Store(s) => r@ == "Error: the history store failed: "@ + s@,
            },
    {
        match self {
            TagError::Capture(s) => {
                let head: String = "Error: screen capture failed: ".to_owned();
                head.concat(s.as_str())
            },
            TagError::Encode(s) => {
                let head: String = "Error: frame encoding failed: ".to_owned();
                head.concat(s.as_str())
            },
            TagError::Inference(s) => {
                let head: String = "Error: inference failed: ".to_owned();
                head.concat(s.as_str())
            },
            TagError::Parse => "Error: the model reply is not a JSON array of strings".to_owned(),
            TagError::Store(s) => {
                let head: String = "Error: the history store failed: ".to_owned();
                head.concat(s.as_str())
            },
        }
    }
}

/// One inference request: the model, the finished prompt, and one base-64
/// image per captured frame.
pub struct TagRequest {
    pub model: String,
    pub prompt: String,
    pub images: Vec<String>,
}

/// Builds the inference request for one clipboard event: the fixed model,
/// the tagging prompt with `text` interpolated, and exactly one base-64
/// image per captured frame, in capture order.
pub fn build_tag_request(text: &str, png_frames: &Vec<Vec<u8>>) -> (r: TagRequest)
    requires
        forall|i: int| 0 <= i < png_frames@.len()
            ==> 4 * ((png_frames@[i]@.len() + 2) as int / 3) <= usize::MAX as int,
    ensures
        r.model@ == prompt::model_name_spec(),
        r.prompt@ == prompt::tagging_prompt_spec(text@),
        r.images@.len() == png_frames@.len(),
        forall|i: int| 0 <= i < png_frames@.len()
            ==> r.images@[i]@ == frames::base64_std_of(png_frames@[i]@),
{
    TagRequest {
        model: prompt::model_name(),
        prompt: prompt::tagging_prompt(text),
        images: frames::encode_frames(png_frames),
    }
}

/// Folds one model reply into the history: when the reply is a JSON array of
/// strings, the entry for `text` is inserted or overwritten with its tags;
/// otherwise nothing changes and the event fails as a parse error.
pub fn apply_reply(history: &mut ClipboardHistory, text: &str, reply: &str) -> (r: Result<
    (),
    TagError,
>)
    requires
        old(history).wf(),
    ensures
        final(history).wf(),
        match r {
            Ok(_) => codec::tags_of(reply@) is Some && final(history)@ == old(history)@.insert(
                text@,
                codec::tags_of(reply@)->0,
            ),
            Err(e) => e is Parse && codec::tags_of(reply@) is None && final(history)@ == old(
                history,
            )@,
        },
{
    match codec::parse_tags(reply) {
        Some(tags) => {
            let key: String = text.to_owned();
            history.put(key, tags);
            Ok(())
        },
        None => Err(TagError::Parse),
    }
}

/// The history map in force before an event: what the store file loads to,
/// or the empty map when no store file exists yet.
pub open spec fn prior_map(stored: Option<Seq<char>>) -> Map<Seq<char>, Seq<Seq<char>>> {
    match stored {
        Some(c) => history::load_spec(c),
        None => Map::<Seq<char>, Seq<Seq<char>>>::empty(),
    }
}

/// The store-side half of one clipboard event, after the reply arrived:
/// loads the history from the store file content (tolerantly: a missing or
/// malformed file is an empty history), folds the reply in, and returns the
/// new store file content. When the reply is not a JSON array of strings the
/// event fails and nothing is to be written.
pub fn handle_copy_core(stored: Option<&str>, text: &str, reply: &str) -> (r: Result<
    String,
    TagError,
>)
    ensures
        match r {
            Ok(content) => codec::tags_of(reply@) is Some && history::load_spec(content@)
                == prior_map(match stored {
                    Some(c) => Some(c@),
                    None => None,
                }).insert(text@, codec::tags_of(reply@)->0),
            Err(e) => e is Parse && codec::tags_of(reply@) is None,
        },
{
    let mut h = match stored {
        Some(c) => ClipboardHistory::load_from_store(c),
        None => ClipboardHistory::new(),
    };
    match apply_reply(&mut h, text, reply) {
        Ok(_) => {
            let out = h.save_to_string();
            proof {
                history::lemma_save_load_round_trip(h);
            }
            Ok(out)
        },
        Err(e) => Err(e),
    }
}

/// Tolerant first event: whatever the prior store file held — even nothing
/// of the expected shape — it loads as the empty map, so an event with a
/// well-formed reply succeeds and the new file holds exactly the one entry
/// written.
pub proof fn lemma_tolerant_first_event(stored: Seq<char>, t: Seq<char>, r: Seq<char>)
    requires
        codec::tags_of(r) is Some,
        codec::history_entries_of(stored) is None,
    ensures
        history::load_spec(stored) == Map::<Seq<char>, Seq<Seq<char>>>::empty(),
        history::load_spec(stored).insert(t, codec::tags_of(r)->0).dom() =~= set![t],
{
    assert(history::load_spec(stored).insert(t, codec::tags_of(r)->0).dom() =~= set![t]);
}

/// Overwriting is idempotent in the key: handling the same text twice — as
/// `apply_reply` does, once with reply `r1` and then with reply `r2` — leaves
/// the history exactly as handling `r2` alone would, with one entry for the
/// text holding the tags of the most recent reply; from an empty history the
/// whole map is that one entry.
pub proof fn lemma_idempotent_overwrite(
    m: Map<Seq<char>, Seq<Seq<char>>>,
    t: Seq<char>,
    r1: Seq<char>,
    r2: Seq<char>,
)
    requires
        codec::tags_of(r1) is Some,
        codec::tags_of(r2) is Some,
    ensures
        m.insert(t, codec::tags_of(r1)->0).insert(t, codec::tags_of(r2)->0) == m.insert(
            t,
            codec::tags_of(r2)->0,
        ),
        Map::<Seq<char>, Seq<Seq<char>>>::empty().insert(t, codec::tags_of(r1)->0).insert(
            t,
            codec::tags_of(r2)->0,
        ).dom() =~= set![t],
{
    let v1 = codec::tags_of(r1)->0;
    let v2 = codec::tags_of(r2)->0;
    assert(m.insert(t, v1).insert(t, v2) =~= m.insert(t, v2));
    assert(Map::<Seq<char>, Seq<Seq<char>>>::empty().insert(t, v1).insert(t, v2).dom()
        =~= set![t]);
}

/// Distinct texts keep distinct entries: handling two different texts in
/// turn, as `apply_reply` does, leaves both entries, each holding the tags of
/// its own reply.
pub proof fn lemma_key_disjointness(
    m: Map<Seq<char>, Seq<Seq<char>>>,
    t1: Seq<char>,
    t2: Seq<char>,
    r1: Seq<char>,
    r2: Seq<char>,
)
    requires
        t1 != t2,
        codec::tags_of(r1) is Some,
        codec::tags_of(r2) is Some,
    ensures
        m.insert(t1, codec::tags_of(r1)->0).insert(t2, codec::tags_of(r2)->0).contains_key(t1),
        m.insert(t1, codec::tags_of(r1)->0).insert(t2, codec::tags_of(r2)->0).contains_key(t2),
        m.insert(t1, codec::tags_of(r1)->0).insert(t2, codec::tags_of(r2)->0)[t1]
            == codec::tags_of(r1)->0,
        m.insert(t1, codec::tags_of(r1)->0).insert(t2, codec::tags_of(r2)->0)[t2]
            == codec::tags_of(r2)->0,
{
}

} // verus!

//! Names of the event kinds that the library itself interprets. The set is open: an event of any
//! other kind is stored and shown as it is.

use vstd::prelude::*;

verus! {

/// The core's note of what an adapter said of itself.
pub const CORE_ADMIT: &'static str = "core.admit";

/// An adapter was started again: its sequence numbers begin anew behind this record.
pub const CORE_RESPAWN: &'static str = "core.respawn";

pub const SESSION_OPEN: &'static str = "session.open";

pub const SESSION_CLOSE: &'static str = "session.close";

pub const INK_PAGE_ACTIVATE: &'static str = "ink.page_activate";

pub const INK_STROKE_COMMIT: &'static str = "ink.stroke_commit";

pub const INK_STROKE_DELETE: &'static str = "ink.stroke_delete";

pub const AUDIO_CHUNK: &'static str = "audio.chunk";

pub const ASR_UTTERANCE: &'static str = "asr.utterance";

pub const SCREEN_KEYFRAME: &'static str = "screen.keyframe";

pub const COURSEWARE_PAGE: &'static str = "courseware.page";

pub const EVAL_RECORD: &'static str = "eval.record";

/// Every kind that the library interprets.
pub open spec fn all_kinds() -> Seq<Seq<char>> {
    seq![
        CORE_ADMIT@,
        CORE_RESPAWN@,
        SESSION_OPEN@,
        SESSION_CLOSE@,
        INK_PAGE_ACTIVATE@,
        INK_STROKE_COMMIT@,
        INK_STROKE_DELETE@,
        AUDIO_CHUNK@,
        ASR_UTTERANCE@,
        SCREEN_KEYFRAME@,
        COURSEWARE_PAGE@,
        EVAL_RECORD@,
    ]
}

/// No two kinds share a name.
pub proof fn kinds_are_distinct()
    ensures
        all_kinds().no_duplicates(),
{
    reveal_strlit("core.admit");
    reveal_strlit("core.respawn");
    reveal_strlit("session.open");
    reveal_strlit("session.close");
    reveal_strlit("ink.page_activate");
    reveal_strlit("ink.stroke_commit");
    reveal_strlit("ink.stroke_delete");
    reveal_strlit("audio.chunk");
    reveal_strlit("asr.utterance");
    reveal_strlit("screen.keyframe");
    reveal_strlit("courseware.page");
    reveal_strlit("eval.record");
    let k = all_kinds();
    assert(k[0].len() == 10 && k[1].len() == 12 && k[2].len() == 12 && k[3].len() == 13 && k[4].len() == 17
        && k[5].len() == 17 && k[6].len() == 17 && k[7].len() == 11 && k[8].len() == 13 && k[9].len() == 15
        && k[10].len() == 15 && k[11].len() == 11);
    assert(k[1][0] == 'c' && k[2][0] == 's');
    assert(k[3][0] == 's' && k[8][0] == 'a');
    assert(k[4][4] == 'p' && k[5][4] == 's' && k[6][4] == 's');
    assert(k[5][11] == 'c' && k[6][11] == 'd');
    assert(k[7][0] == 'a' && k[11][0] == 'e');
    assert(k[9][0] == 's' && k[10][0] == 'c');
    assert(k[9] != k[10]);
    assert(k[4] != k[5] && k[4] != k[6] && k[5] != k[6]);
    assert(k[1] != k[2]);
    assert(k[3] != k[8]);
    assert(k[7] != k[11]);
}

} // verus!

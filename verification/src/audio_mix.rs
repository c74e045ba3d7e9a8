//! Roles of the extra audio tracks of a mix.

use vstd::prelude::*;

use crate::edit::EditSpecError;
use crate::text::str_equal;

verus! {

#[derive(Debug, Clone, Copy, PartialEq, Eq, Structural)]
pub enum AudioRole {
    Music,
    Voiceover,
    Sfx,
}

impl AudioRole {
    /// The token that names this kind on the wire.
    pub open spec fn wire(self) -> Seq<char> {
        match self {
            AudioRole::Music => "music"@,
            AudioRole::Voiceover => "voiceover"@,
            AudioRole::Sfx => "sfx"@,
        }
    }

    /// The kind a wire token names, if any.
    pub open spec fn from_wire(value: Seq<char>) -> Option<AudioRole> {
        if value == "music"@ {
            Some(AudioRole::Music)
        } else if value == "voiceover"@ {
            Some(AudioRole::Voiceover)
        } else if value == "sfx"@ {
            Some(AudioRole::Sfx)
        } else {
            None
        }
    }

    /// Accept exactly the wire tokens, and nothing else.
    pub fn parse(value: &str) -> (result: Result<AudioRole, EditSpecError>)
        ensures
            result == (match AudioRole::from_wire(value@) {
                Some(kind) => Ok::<AudioRole, EditSpecError>(kind),
                None => Err(EditSpecError::InvalidAudioTrack),
            }),
    {
        if str_equal(value, "music") {
            return Ok(AudioRole::Music);
        }
        if str_equal(value, "voiceover") {
            return Ok(AudioRole::Voiceover);
        }
        if str_equal(value, "sfx") {
            return Ok(AudioRole::Sfx);
        }
        Err(EditSpecError::InvalidAudioTrack)
    }
}

/// Each role's token parses back to that role.
pub proof fn law_audio_role_tokens_round_trip(kind: AudioRole)
    ensures
        AudioRole::from_wire(kind.wire()) == Some(kind),
{
    reveal_strlit("music");
    reveal_strlit("voiceover");
    reveal_strlit("sfx");
    match kind {
        AudioRole::Music => {
        },
        AudioRole::Voiceover => {
            assert("voiceover"@.len() != "music"@.len());
        },
        AudioRole::Sfx => {
            assert("sfx"@.len() != "music"@.len());
            assert("sfx"@.len() != "voiceover"@.len());
        },
    }
}

} // verus!

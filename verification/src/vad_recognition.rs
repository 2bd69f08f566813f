//! Getting ready for recognition with voice activity detection.

use crate::app_state::{language_code, WhisperLanguage, WhisperModel};
use vstd::prelude::*;

verus! {

/// Why recognition with voice activity detection cannot start.
#[derive(Debug, Clone, Copy, PartialEq, Eq, Structural)]
pub enum VadError {
    /// No language was chosen; this mode cannot detect it.
    LanguageNotSpecified,
    /// The detection script is in none of the places it is looked for.
    ScriptNotFound,
}

/// What a start error says in words.
pub open spec fn vad_error_text(e: VadError) -> Seq<char> {
    match e {
        VadError::LanguageNotSpecified => "Language not specified"@,
        VadError::ScriptNotFound => "找不到VAD脚本文件"@,
    }
}

impl VadError {
    /// What the error says in words.
    pub fn message(&self) -> (r: &'static str)
        ensures
            r@ == vad_error_text(*self),
    {
        match self {
            VadError::LanguageNotSpecified => "Language not specified",
            VadError::ScriptNotFound => "找不到VAD脚本文件",
        }
    }
}

/// The place that is looked at as number `i`, counted from zero, for the
/// detection script.
pub open spec fn script_place(i: int) -> Seq<char> {
    if i == 0 {
        "scripts/vad_transcribe_continuous.py"@
    } else if i == 1 {
        "../scripts/vad_transcribe_continuous.py"@
    } else {
        "./vad_transcribe_continuous.py"@
    }
}

/// The places where the detection script is looked for, in the order in
/// which they are tried.
pub fn vad_script_places() -> (places: Vec<&'static str>)
    ensures
        places@.len() == 3,
        forall|i: int| 0 <= i < 3 ==> (#[trigger] places@[i])@ == script_place(i),
{
    let mut places: Vec<&'static str> = Vec::new();
    places.push("scripts/vad_transcribe_continuous.py");
    places.push("../scripts/vad_transcribe_continuous.py");
    places.push("./vad_transcribe_continuous.py");
    places
}

/// The first position at which `present` holds `true`, or the length where
/// it holds none.
pub open spec fn first_present(present: Seq<bool>) -> int
    decreases present.len(),
{
    if present.len() == 0 || present[0] {
        0
    } else {
        1 + first_present(present.skip(1))
    }
}

/// The place of the detection script: the first of the three places at
/// which one is present, or none.
pub open spec fn chosen_place(present: Seq<bool>) -> Option<int> {
    let first = first_present(present);
    if first < present.len() && first < 3 {
        Some(first)
    } else {
        None
    }
}

/// The first position with `true` is `first_present`.
proof fn lemma_first_present_is(present: Seq<bool>, k: int)
    requires
        0 <= k <= present.len(),
        forall|j: int| 0 <= j < k ==> !present[j],
        k < present.len() ==> present[k],
    ensures
        first_present(present) == k,
    decreases present.len(),
{
    if k > 0 {
        assert(!present[0]);
        assert forall|j: int| 0 <= j < k - 1 implies !present.skip(1)[j] by {
            assert(present.skip(1)[j] == present[j + 1]);
        }
        lemma_first_present_is(present.skip(1), k - 1);
    }
}

/// Picks the detection script: the first of the places, in their order, at
/// which a script is present. `present` says of each place whether one is;
/// places it does not speak of count as empty.
pub fn get_vad_script_path(present: &Vec<bool>) -> (r: Result<&'static str, VadError>)
    ensures
        match chosen_place(present@) {
            Some(place) => r is Ok && r->Ok_0@ == script_place(place),
            None => r == Err::<&'static str, VadError>(VadError::ScriptNotFound),
        },
{
    let places = vad_script_places();
    let mut i: usize = 0;
    while i < 3 && i < present.len()
        invariant
            i <= 3,
            i <= present.len(),
            places@.len() == 3,
            forall|k: int| 0 <= k < 3 ==> (#[trigger] places@[k])@ == script_place(k),
            forall|j: int| 0 <= j < i ==> !present@[j],
        decreases 3 - i,
    {
        if present[i] {
            proof {
                lemma_first_present_is(present@, i as int);
            }
            return Ok(places[i]);
        }
        i += 1;
    }
    proof {
        lemma_first_present_bounds(present@);
        let first = first_present(present@);
        if first < i {
            assert(!present@[first]);
        }
    }
    Err(VadError::ScriptNotFound)
}

/// Nothing before `first_present` is present.
proof fn lemma_first_present_bounds(present: Seq<bool>)
    ensures
        0 <= first_present(present) <= present.len(),
        forall|j: int| 0 <= j < first_present(present) ==> !present[j],
        first_present(present) < present.len() ==> present[first_present(present)],
    decreases present.len(),
{
    if present.len() == 0 || present[0] {
    } else {
        lemma_first_present_bounds(present.skip(1));
        assert forall|j: int| 0 <= j < first_present(present) implies !present[j] by {
            if j > 0 {
                assert(present[j] == present.skip(1)[j - 1]);
            }
        }
    }
}

/// What the detection script is started with.
#[derive(Debug, Clone)]
pub struct VadRequest {
    pub script: &'static str,
    pub language: String,
    pub model: WhisperModel,
}

/// Gets recognition with voice activity detection ready: it needs the code
/// of a language, and then the detection script. `present` says of each
/// place of the script whether one is there.
pub fn recognize_with_vad(
    model: WhisperModel,
    language: &WhisperLanguage,
    custom_language: &str,
    present: &Vec<bool>,
) -> (r: Result<VadRequest, VadError>)
    ensures
        match language_code(*language, custom_language@) {
            None => r == Err::<VadRequest, VadError>(VadError::LanguageNotSpecified),
            Some(code) => match chosen_place(present@) {
                Some(place) => {
                    &&& r is Ok
                    &&& r->Ok_0.script@ == script_place(place)
                    &&& r->Ok_0.language@ == code
                    &&& r->Ok_0.model == model
                },
                None => r == Err::<VadRequest, VadError>(VadError::ScriptNotFound),
            },
        },
{
    let code = match language.to_code(custom_language) {
        Some(c) => c,
        None => {
            return Err(VadError::LanguageNotSpecified);
        },
    };
    match get_vad_script_path(present) {
        Ok(script) => Ok(VadRequest { script, language: code.to_owned(), model }),
        Err(e) => Err(e),
    }
}

} // verus!

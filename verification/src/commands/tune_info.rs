//! Tune info and new tune commands.

use vstd::prelude::*;

verus! {

/// What the frontend is told of the loaded tune.
#[derive(Clone, Debug)]
pub struct TuneInfo {
    pub path: Option<String>,
    pub signature: String,
    pub modified: bool,
    pub has_tune: bool,
}

/// What the application holds of the loaded tune: its signature where one is
/// loaded, the file it came from, and whether it has been changed since.
#[derive(Clone, Debug)]
pub struct TuneState {
    pub signature: Option<String>,
    pub path: Option<String>,
    pub modified: bool,
}

/// An optional text, as a sequence of characters.
pub open spec fn text_of(t: Option<String>) -> Option<Seq<char>> {
    match t {
        Some(s) => Some(s@),
        None => None,
    }
}

/// What is told of a loaded tune: nothing but its absence where there is none.
pub open spec fn tells(state: TuneState, info: TuneInfo) -> bool {
    match state.signature {
        Some(signature) => {
            &&& info.has_tune
            &&& info.signature@ == signature@
            &&& text_of(info.path) == text_of(state.path)
            &&& info.modified == state.modified
        },
        None => {
            &&& !info.has_tune
            &&& info.signature@ == Seq::<char>::empty()
            &&& info.path is None
            &&& !info.modified
        },
    }
}

/// A fresh tune for a definition: it has the definition's signature, no file,
/// and no change.
pub open spec fn is_fresh(state: TuneState, definition: Option<Seq<char>>) -> bool {
    &&& text_of(state.signature) == Some(
        match definition {
            Some(signature) => signature,
            None => "Unknown"@,
        },
    )
    &&& state.path is None
    &&& !state.modified
}

/// Gets information about the currently loaded tune.
pub fn get_tune_info(state: &TuneState) -> (r: Result<TuneInfo, String>)
    ensures
        r matches Ok(info) && tells(*state, info),
{
    match &state.signature {
        Some(signature) => Ok(
            TuneInfo {
                path: match &state.path {
                    Some(p) => Some(String::from_str(p.as_str())),
                    None => None,
                },
                signature: String::from_str(signature.as_str()),
                modified: state.modified,
                has_tune: true,
            },
        ),
        None => Ok(
            TuneInfo { path: None, signature: String::new(), modified: false, has_tune: false },
        ),
    }
}

/// Replace the loaded tune by a fresh one. `definition` is the signature of
/// the loaded definition, where one is loaded.
pub fn new_tune(state: &mut TuneState, definition: Option<&str>) -> (r: Result<(), String>)
    ensures
        r is Ok,
        is_fresh(
            *final(state),
            match definition {
                Some(signature) => Some(signature@),
                None => None,
            },
        ),
{
    let signature = match definition {
        Some(s) => String::from_str(s),
        None => String::from_str("Unknown"),
    };
    state.signature = Some(signature);
    state.path = None;
    state.modified = false;
    Ok(())
}

/// A fresh tune is told as loaded, unchanged and without a file, under the
/// definition's signature.
pub proof fn law_a_fresh_tune_is_told_as_such(
    state: TuneState,
    definition: Option<Seq<char>>,
    info: TuneInfo,
)
    requires
        is_fresh(state, definition),
        tells(state, info),
    ensures
        info.has_tune,
        !info.modified,
        info.path is None,
        info.signature@ == (match definition {
            Some(signature) => signature,
            None => "Unknown"@,
        }),
{
}

/// A loaded tune is told in full, and of no tune nothing is told.
pub proof fn law_a_tune_is_told_as_it_is(state: TuneState, info: TuneInfo)
    requires
        tells(state, info),
    ensures
        info.has_tune == state.signature is Some,
        state.signature matches Some(signature) ==> info.signature@ == signature@ && info.modified
            == state.modified && text_of(info.path) == text_of(state.path),
        state.signature is None ==> info.signature@.len() == 0 && !info.modified && info.path is None,
        info.path is Some ==> state.path is Some,
{
}

/// An optional text is its characters.
pub proof fn law_a_text_is_its_characters(t: Option<String>)
    ensures
        text_of(t) is Some <==> t is Some,
        t matches Some(s) ==> text_of(t) == Some(s@),
{
}

/// A fresh tune has the definition's signature, or "Unknown" without one.
pub proof fn law_a_fresh_tune_has_the_definitions_signature(
    state: TuneState,
    definition: Option<Seq<char>>,
)
    requires
        is_fresh(state, definition),
    ensures
        state.path is None,
        !state.modified,
        state.signature matches Some(s) && (definition matches Some(d) ==> s@ == d) && (
        definition is None ==> s@ == "Unknown"@),
{
}

} // verus!

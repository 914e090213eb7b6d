//! Resolution of the editor's startup options.
//!
//! The command line offers separate load and save destinations and an
//! `edit` shorthand that stands for both; the shorthand may not be
//! combined with either explicit destination.

use vstd::prelude::*;

verus! {

/// Why a combination of startup options is rejected.
#[derive(Clone, Copy, Debug, PartialEq, Eq, Structural)]
pub enum OptionsError {
    /// The edit shorthand was given together with an explicit load path.
    EditOverwritesLoad,
    /// The edit shorthand was given together with an explicit save path.
    EditOverwritesSave,
}

/// Resolves the load and save destinations: `edit` alone stands for
/// loading from and saving to the same path; combined with an explicit
/// `load` or `save` it is rejected rather than silently overwritten.
pub fn resolve_options(load: Option<String>, save: Option<String>, edit: Option<String>) -> (r:
    Result<(Option<String>, Option<String>), OptionsError>)
    ensures
        edit is None ==> r == Ok::<(Option<String>, Option<String>), OptionsError>((load, save)),
        edit is Some && load is Some ==> r == Err::<(Option<String>, Option<String>), OptionsError>(
            OptionsError::EditOverwritesLoad,
        ),
        edit is Some && load is None && save is Some ==> r == Err::<
            (Option<String>, Option<String>),
            OptionsError,
        >(OptionsError::EditOverwritesSave),
        (edit matches Some(path)) && load is None && save is None ==> (r matches Ok(resolved) && (
        resolved.0 matches Some(l) && l@ == edit->0@) && resolved.1 == edit),
{
    match edit {
        Some(path) => {
            if load.is_some() {
                Err(OptionsError::EditOverwritesLoad)
            } else if save.is_some() {
                Err(OptionsError::EditOverwritesSave)
            } else {
                let load_path = path.clone();
                Ok((Some(load_path), Some(path)))
            }
        },
        None => Ok((load, save)),
    }
}

} // verus!

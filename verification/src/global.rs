//! The process-wide plugin manager (a shared `PluginManager`, or whatever
//! the host wraps it in): it can be set once, and read afterwards. The slot
//! that holds it is owned by the caller.

use vstd::prelude::*;
use vstd::string::*;

verus! {

/// Error when the slot is filled already.
pub open spec fn already_set_message() -> Seq<char> {
    "global plugin manager already set"@
}

/// Setting a slot once: the slot afterwards, and whether the value was
/// taken. A filled slot keeps what it holds.
pub open spec fn set_once<T>(slot: Option<T>, value: T) -> (Option<T>, bool) {
    match slot {
        Some(held) => (Some(held), false),
        None => (Some(value), true),
    }
}

/// Puts `m` in the slot when it is empty; when it is filled, leaves it as it
/// is and reports that it is set already.
pub fn set_global_plugin_manager<M>(slot: &mut Option<M>, m: M) -> (r: Result<(), String>)
    ensures
        (*final(slot), r is Ok) == set_once(*old(slot), m),
        r matches Err(e) ==> e@ == already_set_message(),
{
    if slot.is_some() {
        Err(String::from_str("global plugin manager already set"))
    } else {
        *slot = Some(m);
        Ok(())
    }
}

/// The manager in the slot, if one was set.
pub fn get_global_plugin_manager<M>(slot: &Option<M>) -> (r: Option<&M>)
    ensures
        match r {
            Some(m) => *slot == Some(*m),
            None => *slot is None,
        },
{
    match slot {
        Some(m) => Some(m),
        None => None,
    }
}

/// The first value set wins: a second setting is refused and the slot keeps
/// the first value.
pub proof fn lemma_set_once_keeps_first<T>(slot: Option<T>, first: T, second: T)
    ensures
        set_once(set_once(slot, first).0, second).1 == false,
        set_once(set_once(slot, first).0, second).0 == set_once(slot, first).0,
        slot is None ==> set_once(slot, first).0 == Some(first),
{
}

} // verus!

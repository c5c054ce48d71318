//! The dispatch engine: resolves a fired keybind identifier to a binding,
//! looking the store up fresh on every event so renames and removals are
//! always reflected, and never fires on a key release.

use crate::config::Binding;
use crate::config::Config;
use crate::config::custom_index;
use crate::config::name_taken;
use crate::text::str_eq;
use vstd::prelude::*;

verus! {

/// `p` is a prefix of `s`.
pub open spec fn starts_with(s: Seq<char>, p: Seq<char>) -> bool {
    p.len() <= s.len() && s.subrange(0, p.len() as int) == p
}

/// The binding an identifier resolves to: an identifier with the custom
/// prefix is looked up by the remainder among the custom names; otherwise it
/// must be one of the eleven fixed identifiers; anything else is stale and
/// resolves to nothing.
pub open spec fn resolve_spec(c: Config, id: Seq<char>) -> Option<Binding> {
    if starts_with(id, "Dialog Custom "@) {
        let name = id.skip("Dialog Custom "@.len() as int);
        if name_taken(c.custom@, name) {
            Some(c.custom@[custom_index(c.custom@, name)].binding)
        } else {
            None
        }
    } else if id == "Dialog 1"@ {
        Some(c.dialogs@[0])
    } else if id == "Dialog 2"@ {
        Some(c.dialogs@[1])
    } else if id == "Dialog 3"@ {
        Some(c.dialogs@[2])
    } else if id == "Dialog 4"@ {
        Some(c.dialogs@[3])
    } else if id == "Dialog 5"@ {
        Some(c.dialogs@[4])
    } else if id == "Dialog 6"@ {
        Some(c.dialogs@[5])
    } else if id == "Dialog 7"@ {
        Some(c.dialogs@[6])
    } else if id == "Dialog 8"@ {
        Some(c.dialogs@[7])
    } else if id == "Dialog 9"@ {
        Some(c.dialogs@[8])
    } else if id == "Dialog Yes"@ {
        Some(c.yes)
    } else if id == "Dialog No"@ {
        Some(c.no)
    } else {
        None
    }
}

/// Resolves an identifier against the current store.
pub fn resolve(c: &Config, id: &str) -> (r: Option<Binding>)
    requires
        c.wf(),
    ensures
        r == resolve_spec(*c, id@),
{
    proof {
        reveal_strlit("Dialog Custom ");
    }
    let n = id.unicode_len();
    if n >= 14 && str_eq(id.substring_char(0, 14), "Dialog Custom ") {
        proof {
            assert(starts_with(id@, "Dialog Custom "@));
        }
        let name = id.substring_char(14, n);
        let mut i: usize = 0;
        while i < c.custom.len()
            invariant
                c.wf(),
                i <= c.custom@.len(),
                starts_with(id@, "Dialog Custom "@),
                name@ == id@.skip(14),
                forall|k: int| 0 <= k < i ==> c.custom@[k].name@ != name@,
            decreases c.custom@.len() - i,
        {
            if str_eq(name, c.custom[i].name.as_str()) {
                proof {
                    reveal_strlit("Dialog Custom ");
                    assert(c.custom@[i as int].name@ == name@);
                    assert(name_taken(c.custom@, name@));
                    let j = custom_index(c.custom@, name@);
                    assert(0 <= j < c.custom@.len() && c.custom@[j].name@ == name@);
                    if (i as int) < j {
                        assert(c.custom@[i as int].name@ != c.custom@[j].name@);
                    }
                    if j < i as int {
                        assert(c.custom@[j].name@ != c.custom@[i as int].name@);
                    }
                }
                return Some(c.custom[i].binding);
            }
            i = i + 1;
        }
        return None;
    }
    if str_eq(id, "Dialog 1") {
        Some(c.dialogs[0])
    } else if str_eq(id, "Dialog 2") {
        Some(c.dialogs[1])
    } else if str_eq(id, "Dialog 3") {
        Some(c.dialogs[2])
    } else if str_eq(id, "Dialog 4") {
        Some(c.dialogs[3])
    } else if str_eq(id, "Dialog 5") {
        Some(c.dialogs[4])
    } else if str_eq(id, "Dialog 6") {
        Some(c.dialogs[5])
    } else if str_eq(id, "Dialog 7") {
        Some(c.dialogs[6])
    } else if str_eq(id, "Dialog 8") {
        Some(c.dialogs[7])
    } else if str_eq(id, "Dialog 9") {
        Some(c.dialogs[8])
    } else if str_eq(id, "Dialog Yes") {
        Some(c.yes)
    } else if str_eq(id, "Dialog No") {
        Some(c.no)
    } else {
        None
    }
}

/// Handles one key event: a release never fires; a press resolves the
/// identifier and yields the binding to click, if any.
pub fn handle_key_event(c: &Config, id: &str, is_release: bool) -> (r: Option<Binding>)
    requires
        c.wf(),
    ensures
        is_release ==> r is None,
        !is_release ==> r == resolve_spec(*c, id@),
{
    if is_release {
        return None;
    }
    resolve(c, id)
}

} // verus!

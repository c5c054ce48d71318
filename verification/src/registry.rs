//! The keybind registry adapter: keeps a one-to-one mirror of the host's
//! keybind registrations in sync with the store, so that after every edit
//! the registered identifiers are exactly the live binding identifiers.
//! The host calls themselves are the caller's: each operation returns the
//! register/unregister actions to perform.

use crate::config::Binding;
use crate::config::ClickType;
use crate::config::Config;
use crate::config::CustomBinding;
use crate::config::FixedSlot;
use crate::config::StoreError;
use crate::config::custom_index;
use crate::config::fresh_k;
use crate::config::macro_name;
use crate::config::name_taken;
use vstd::prelude::*;

verus! {

/// One host-level registration change.
#[derive(Clone, Debug)]
pub enum RegAction {
    Register { id: String, default_chord: String },
    Unregister { id: String },
}

/// `a` registers `id` with this default chord.
pub open spec fn spec_registers(a: RegAction, id: Seq<char>, chord: Seq<char>) -> bool {
    match a {
        RegAction::Register { id: i, default_chord: c } => i@ == id && c@ == chord,
        _ => false,
    }
}

/// `a` unregisters `id`.
pub open spec fn spec_unregisters(a: RegAction, id: Seq<char>) -> bool {
    match a {
        RegAction::Unregister { id: i } => i@ == id,
        _ => false,
    }
}

/// The dispatch identifier of a custom binding.
pub open spec fn custom_id_of(name: Seq<char>) -> Seq<char> {
    "Dialog Custom "@ + name
}

/// The eleven fixed dispatch identifiers, in registration order.
pub open spec fn fixed_ids() -> Seq<Seq<char>> {
    seq![
        "Dialog 1"@,
        "Dialog 2"@,
        "Dialog 3"@,
        "Dialog 4"@,
        "Dialog 5"@,
        "Dialog 6"@,
        "Dialog 7"@,
        "Dialog 8"@,
        "Dialog 9"@,
        "Dialog Yes"@,
        "Dialog No"@,
    ]
}

/// The default chord suggested for each fixed identifier.
pub open spec fn fixed_chords() -> Seq<Seq<char>> {
    seq![
        "ALT+1"@,
        "ALT+2"@,
        "ALT+3"@,
        "ALT+4"@,
        "ALT+5"@,
        "ALT+6"@,
        "ALT+7"@,
        "ALT+8"@,
        "ALT+9"@,
        "ALT+S"@,
        "ALT+F"@,
    ]
}

/// Every live identifier of `c`, in registration order: the eleven fixed
/// ones, then one per custom binding.
pub open spec fn live_ids(c: Config) -> Seq<Seq<char>> {
    fixed_ids() + c.custom@.map_values(|cb: CustomBinding| custom_id_of(cb.name@))
}

/// The identifiers of a registration mirror.
pub open spec fn reg_ids(r: Seq<String>) -> Seq<Seq<char>> {
    r.map_values(|s: String| s@)
}

/// `id` is among the registered identifiers.
pub open spec fn regs_contain(r: Seq<String>, id: Seq<char>) -> bool {
    exists|i: int| 0 <= i < r.len() && r[i]@ == id
}

/// `id` is a live binding identifier of `c`: fixed, or of a custom entry.
pub open spec fn is_live_id(c: Config, id: Seq<char>) -> bool {
    ||| exists|i: int| 0 <= i < 11 && id == fixed_ids()[i]
    ||| exists|j: int| 0 <= j < c.custom@.len() && id == custom_id_of(c.custom@[j].name@)
}

/// The store together with the mirror of what is registered with the host.
pub struct RegistryAdapter {
    pub config: Config,
    pub registered: Vec<String>,
}

impl RegistryAdapter {
    /// The sync invariant: the registered identifiers are exactly the live
    /// binding identifiers, in registration order.
    pub open spec fn wf(self) -> bool {
        &&& self.config.wf()
        &&& reg_ids(self.registered@) == live_ids(self.config)
    }
}


proof fn lemma_sync_unfold(r: Seq<String>, c: Config)
    requires
        reg_ids(r) == live_ids(c),
    ensures
        r.len() == 11 + c.custom@.len(),
        forall|k: int| 0 <= k < 11 ==> (#[trigger] r[k])@ == fixed_ids()[k],
        forall|k: int|
            0 <= k < c.custom@.len() ==> (#[trigger] r[11 + k])@ == custom_id_of(
                c.custom@[k].name@,
            ),
{
    assert(fixed_ids().len() == 11);
    assert(reg_ids(r).len() == r.len());
    assert(live_ids(c).len() == 11 + c.custom@.len());
    assert forall|k: int| 0 <= k < 11 implies (#[trigger] r[k])@ == fixed_ids()[k] by {
        assert(reg_ids(r)[k] == live_ids(c)[k]);
    }
    assert forall|k: int| 0 <= k < c.custom@.len() implies (#[trigger] r[11 + k])@
        == custom_id_of(c.custom@[k].name@) by {
        assert(reg_ids(r)[11 + k] == live_ids(c)[11 + k]);
    }
}

proof fn lemma_sync_fold(r: Seq<String>, c: Config)
    requires
        r.len() == 11 + c.custom@.len(),
        forall|k: int| 0 <= k < 11 ==> (#[trigger] r[k])@ == fixed_ids()[k],
        forall|k: int|
            0 <= k < c.custom@.len() ==> (#[trigger] r[11 + k])@ == custom_id_of(
                c.custom@[k].name@,
            ),
    ensures
        reg_ids(r) == live_ids(c),
{
    assert(fixed_ids().len() == 11);
    assert forall|i: int| 0 <= i < r.len() implies reg_ids(r)[i] == live_ids(c)[i] by {
        if i < 11 {
            assert(r[i]@ == fixed_ids()[i]);
        } else {
            let k = i - 11;
            assert(r[11 + k]@ == custom_id_of(c.custom@[k].name@));
        }
    }
    assert(reg_ids(r) =~= live_ids(c));
}

/// Law: under the sync invariant, an identifier is registered if and only if
/// it is a live binding identifier — no orphaned and no missing
/// registrations.
pub proof fn lemma_registered_iff_live(a: RegistryAdapter, id: Seq<char>)
    requires
        a.wf(),
    ensures
        regs_contain(a.registered@, id) <==> is_live_id(a.config, id),
{
    let r = a.registered@;
    let c = a.config;
    lemma_sync_unfold(r, c);
    assert(fixed_ids().len() == 11);
    if regs_contain(r, id) {
        let i = choose|i: int| 0 <= i < r.len() && r[i]@ == id;
        if i < 11 {
            assert(r[i]@ == fixed_ids()[i]);
        } else {
            let k = i - 11;
            assert(r[11 + k]@ == custom_id_of(c.custom@[k].name@));
        }
    }
    if is_live_id(c, id) {
        if exists|i: int| 0 <= i < 11 && id == fixed_ids()[i] {
            let i = choose|i: int| 0 <= i < 11 && id == fixed_ids()[i];
            assert(r[i]@ == id);
        } else {
            let j = choose|j: int| 0 <= j < c.custom@.len() && id == custom_id_of(
                c.custom@[j].name@,
            );
            assert(r[11 + j]@ == id);
        }
    }
}

/// The dispatch identifier of a custom binding, as a string.
pub fn make_custom_id(name: &String) -> (r: String)
    ensures
        r@ == custom_id_of(name@),
{
    let mut s = String::from_str("Dialog Custom ");
    s.append(name.as_str());
    s
}

impl RegistryAdapter {
    /// On activation: adopt the configuration and register every live
    /// identifier — the fixed ones with their documented default chords,
    /// custom ones with no default chord.
    pub fn activate(config: Config) -> (r: (RegistryAdapter, Vec<RegAction>))
        requires
            config.wf(),
        ensures
            r.0.wf(),
            r.0.config == config,
            r.1@.len() == 11 + config.custom@.len(),
            forall|i: int|
                0 <= i < 11 ==> spec_registers(#[trigger] r.1@[i], fixed_ids()[i], fixed_chords()[i]),
            forall|j: int|
                0 <= j < config.custom@.len() ==> spec_registers(
                    #[trigger] r.1@[11 + j],
                    custom_id_of(config.custom@[j].name@),
                    Seq::<char>::empty(),
                ),
    {
        let mut registered: Vec<String> = Vec::new();
        let mut actions: Vec<RegAction> = Vec::new();
        let fixed: [(&'static str, &'static str); 11] = [
            ("Dialog 1", "ALT+1"),
            ("Dialog 2", "ALT+2"),
            ("Dialog 3", "ALT+3"),
            ("Dialog 4", "ALT+4"),
            ("Dialog 5", "ALT+5"),
            ("Dialog 6", "ALT+6"),
            ("Dialog 7", "ALT+7"),
            ("Dialog 8", "ALT+8"),
            ("Dialog 9", "ALT+9"),
            ("Dialog Yes", "ALT+S"),
            ("Dialog No", "ALT+F"),
        ];
        let mut i: usize = 0;
        while i < 11
            invariant
                i <= 11,
                fixed@.len() == 11,
                forall|k: int| 0 <= k < 11 ==> (#[trigger] fixed@[k]).0@ == fixed_ids()[k],
                forall|k: int| 0 <= k < 11 ==> (#[trigger] fixed@[k]).1@ == fixed_chords()[k],
                registered@.len() == i,
                actions@.len() == i,
                forall|k: int| 0 <= k < i ==> (#[trigger] registered@[k])@ == fixed_ids()[k],
                forall|k: int|
                    0 <= k < i ==> spec_registers(
                        #[trigger] actions@[k],
                        fixed_ids()[k],
                        fixed_chords()[k],
                    ),
            decreases 11 - i,
        {
            let (id, chord) = fixed[i];
            registered.push(String::from_str(id));
            actions.push(
                RegAction::Register { id: String::from_str(id), default_chord: String::from_str(chord) },
            );
            i = i + 1;
        }
        let mut j: usize = 0;
        while j < config.custom.len()
            invariant
                j <= config.custom@.len(),
                registered@.len() == 11 + j,
                actions@.len() == 11 + j,
                forall|k: int| 0 <= k < 11 ==> (#[trigger] registered@[k])@ == fixed_ids()[k],
                forall|k: int|
                    0 <= k < 11 ==> spec_registers(
                        #[trigger] actions@[k],
                        fixed_ids()[k],
                        fixed_chords()[k],
                    ),
                forall|k: int|
                    0 <= k < j ==> (#[trigger] registered@[11 + k])@ == custom_id_of(
                        config.custom@[k].name@,
                    ),
                forall|k: int|
                    0 <= k < j ==> spec_registers(
                        #[trigger] actions@[11 + k],
                        custom_id_of(config.custom@[k].name@),
                        Seq::<char>::empty(),
                    ),
            decreases config.custom@.len() - j,
        {
            let id = make_custom_id(&config.custom[j].name);
            registered.push(id.clone());
            actions.push(RegAction::Register { id, default_chord: String::new() });
            j = j + 1;
        }
        let adapter = RegistryAdapter { config, registered };
        proof {
            lemma_sync_fold(adapter.registered@, adapter.config);
        }
        (adapter, actions)
    }

    /// On deactivation: unregister every registered identifier, in order.
    pub fn deactivate(&self) -> (actions: Vec<RegAction>)
        ensures
            actions@.len() == self.registered@.len(),
            forall|i: int|
                0 <= i < actions@.len() ==> spec_unregisters(
                    #[trigger] actions@[i],
                    self.registered@[i]@,
                ),
    {
        let mut actions: Vec<RegAction> = Vec::new();
        let mut i: usize = 0;
        while i < self.registered.len()
            invariant
                i <= self.registered@.len(),
                actions@.len() == i,
                forall|k: int|
                    0 <= k < i ==> spec_unregisters(
                        #[trigger] actions@[k],
                        self.registered@[k]@,
                    ),
            decreases self.registered@.len() - i,
        {
            actions.push(RegAction::Unregister { id: self.registered[i].clone() });
            i = i + 1;
        }
        actions
    }

    /// Adds a custom binding under a generated fresh name and registers its
    /// identifier (no default chord).
    pub fn add_custom(&mut self) -> (r: (String, Vec<RegAction>))
        requires
            old(self).wf(),
            old(self).config.custom@.len() + 1 < u32::MAX,
        ensures
            final(self).wf(),
            r.0@ == macro_name(fresh_k(old(self).config.custom@)),
            !name_taken(old(self).config.custom@, r.0@),
            final(self).config.custom@ == old(self).config.custom@.push(
                (CustomBinding {
                    name: r.0,
                    binding: (Binding { x: 0i32, y: 0i32, click_type: ClickType::Left }),
                }),
            ),
            final(self).config.next_custom_id == fresh_k(old(self).config.custom@) + 1,
            final(self).config.dialogs == old(self).config.dialogs,
            final(self).config.yes == old(self).config.yes,
            final(self).config.no == old(self).config.no,
            r.1@.len() == 1,
            spec_registers(r.1@[0], custom_id_of(r.0@), Seq::<char>::empty()),
    {
        proof {
            lemma_sync_unfold(old(self).registered@, old(self).config);
        }
        let name = self.config.add_custom();
        let id = make_custom_id(&name);
        self.registered.push(id.clone());
        let mut actions: Vec<RegAction> = Vec::new();
        actions.push(RegAction::Register { id, default_chord: String::new() });
        proof {
            let r1 = self.registered@;
            let c1 = self.config;
            assert forall|k: int| 0 <= k < c1.custom@.len() implies (#[trigger] r1[11 + k])@
                == custom_id_of(c1.custom@[k].name@) by {
                if k < c1.custom@.len() - 1 {
                    assert(r1[11 + k] == old(self).registered@[11 + k]);
                }
            }
            lemma_sync_fold(r1, c1);
        }
        (name, actions)
    }

    /// Removes the custom binding named `name` and unregisters its
    /// identifier; on failure nothing changes and no action is issued.
    pub fn remove_custom(&mut self, name: &String) -> (r: Result<Vec<RegAction>, StoreError>)
        requires
            old(self).wf(),
        ensures
            final(self).wf(),
            r is Err <==> !name_taken(old(self).config.custom@, name@),
            r is Err ==> *final(self) == *old(self),
            r is Ok ==> {
                let i = custom_index(old(self).config.custom@, name@);
                &&& final(self).config.custom@ == old(self).config.custom@.remove(i)
                &&& !name_taken(final(self).config.custom@, name@)
                &&& final(self).config.dialogs == old(self).config.dialogs
                &&& final(self).config.yes == old(self).config.yes
                &&& final(self).config.no == old(self).config.no
                &&& final(self).config.next_custom_id == old(self).config.next_custom_id
                &&& r->Ok_0@.len() == 1
                &&& spec_unregisters(r->Ok_0@[0], custom_id_of(name@))
            },
    {
        let found = self.config.find_custom(name);
        match found {
            None => Err(StoreError::NoSuchBinding),
            Some(i) => {
                proof {
                    lemma_sync_unfold(old(self).registered@, old(self).config);
                    assert(11 + i < old(self).registered.len());
                }
                let _ = self.config.remove_custom(name);
                proof {
                    assert(self.registered.len() == 11 + old(self).config.custom@.len());
                    assert(11 + i < self.registered.len());
                }
                self.registered.remove(11 + i);
                let mut actions: Vec<RegAction> = Vec::new();
                actions.push(RegAction::Unregister { id: make_custom_id(name) });
                proof {
                    let r0 = old(self).registered@;
                    let c0 = old(self).config;
                    let r1 = self.registered@;
                    let c1 = self.config;
                    let gi = i as int;
                    assert(r1 == r0.remove(11 + gi));
                    assert(c1.custom@ == c0.custom@.remove(gi));
                    r0.remove_ensures(11 + gi);
                    c0.custom@.remove_ensures(gi);
                    assert forall|k: int| 0 <= k < 11 implies (#[trigger] r1[k])@
                        == fixed_ids()[k] by {
                        assert(r1[k] == r0[k]);
                    }
                    assert forall|k: int| 0 <= k < c1.custom@.len() implies (#[trigger] r1[11
                        + k])@ == custom_id_of(c1.custom@[k].name@) by {
                        if k < gi {
                            assert(r1[11 + k] == r0[11 + k]);
                            assert(c1.custom@[k] == c0.custom@[k]);
                        } else {
                            let k2 = k + 1;
                            assert(r1[11 + k] == r0[11 + k2]);
                            assert(c1.custom@[k] == c0.custom@[k2]);
                            assert(r0[11 + k2]@ == custom_id_of(c0.custom@[k2].name@));
                        }
                    }
                    lemma_sync_fold(r1, c1);
                }
                Ok(actions)
            },
        }
    }

    /// Renames the custom binding `old_name` to `new_name`; on success the
    /// old identifier is unregistered and the new one registered, in that
    /// order. On failure nothing changes and no action is issued — the old
    /// registration stays valid.
    pub fn rename_custom(&mut self, old_name: &String, new_name: &String) -> (r: Result<
        Vec<RegAction>,
        StoreError,
    >)
        requires
            old(self).wf(),
        ensures
            final(self).wf(),
            r is Err ==> *final(self) == *old(self),
            r == Err::<Vec<RegAction>, StoreError>(StoreError::EmptyName) <==> new_name@.len()
                == 0,
            r == Err::<Vec<RegAction>, StoreError>(StoreError::NoSuchBinding) <==> new_name@.len()
                > 0 && !name_taken(old(self).config.custom@, old_name@),
            r == Err::<Vec<RegAction>, StoreError>(StoreError::DuplicateName) <==> new_name@.len()
                > 0 && name_taken(old(self).config.custom@, old_name@) && name_taken(
                old(self).config.custom@,
                new_name@,
            ) && new_name@ != old_name@,
            r is Ok <==> new_name@.len() > 0 && name_taken(old(self).config.custom@, old_name@)
                && (new_name@ == old_name@ || !name_taken(old(self).config.custom@, new_name@)),
            r is Ok ==> {
                let i = custom_index(old(self).config.custom@, old_name@);
                &&& final(self).config.custom@ == old(self).config.custom@.update(
                    i,
                    (CustomBinding { name: *new_name, binding: old(self).config.custom@[i].binding }),
                )
                &&& final(self).config.dialogs == old(self).config.dialogs
                &&& final(self).config.yes == old(self).config.yes
                &&& final(self).config.no == old(self).config.no
                &&& final(self).config.next_custom_id == old(self).config.next_custom_id
                &&& r->Ok_0@.len() == 2
                &&& spec_unregisters(r->Ok_0@[0], custom_id_of(old_name@))
                &&& spec_registers(r->Ok_0@[1], custom_id_of(new_name@), Seq::<char>::empty())
            },
    {
        let found = self.config.find_custom(old_name);
        let res = self.config.rename_custom(old_name, new_name);
        match res {
            Err(e) => Err(e),
            Ok(()) => {
                let i = match found {
                    Some(i) => i,
                    None => vstd::pervasive::unreached(),
                };
                proof {
                    lemma_sync_unfold(old(self).registered@, old(self).config);
                    assert(11 + i < old(self).registered.len());
                    assert(self.registered.len() == old(self).registered.len());
                }
                self.registered[11 + i] = make_custom_id(new_name);
                let mut actions: Vec<RegAction> = Vec::new();
                actions.push(RegAction::Unregister { id: make_custom_id(old_name) });
                actions.push(RegAction::Register {
                    id: make_custom_id(new_name),
                    default_chord: String::new(),
                });
                proof {
                    let r0 = old(self).registered@;
                    let c0 = old(self).config;
                    let r1 = self.registered@;
                    let c1 = self.config;
                    let gi = i as int;
                    assert forall|k: int| 0 <= k < 11 implies (#[trigger] r1[k])@
                        == fixed_ids()[k] by {
                        assert(r1[k] == r0[k]);
                    }
                    assert forall|k: int| 0 <= k < c1.custom@.len() implies (#[trigger] r1[11
                        + k])@ == custom_id_of(c1.custom@[k].name@) by {
                        if k != gi {
                            assert(r1[11 + k] == r0[11 + k]);
                            assert(c1.custom@[k] == c0.custom@[k]);
                        }
                    }
                    lemma_sync_fold(r1, c1);
                }
                Ok(actions)
            },
        }
    }

    /// Sets the offset of a fixed slot; registrations are untouched.
    pub fn set_fixed_offset(&mut self, slot: FixedSlot, x: i32, y: i32)
        requires
            old(self).wf(),
            slot.valid(),
        ensures
            final(self).wf(),
            final(self).registered == old(self).registered,
            final(self).config.custom == old(self).config.custom,
            final(self).config.next_custom_id == old(self).config.next_custom_id,
            match slot {
                FixedSlot::Dialog(i) => {
                    &&& final(self).config.dialogs@ == old(self).config.dialogs@.update(
                        i as int,
                        (Binding {
                            x,
                            y,
                            click_type: old(self).config.dialogs@[i as int].click_type,
                        }),
                    )
                    &&& final(self).config.yes == old(self).config.yes
                    &&& final(self).config.no == old(self).config.no
                },
                FixedSlot::Yes => {
                    &&& final(self).config.dialogs == old(self).config.dialogs
                    &&& final(self).config.yes == (Binding {
                        x,
                        y,
                        click_type: old(self).config.yes.click_type,
                    })
                    &&& final(self).config.no == old(self).config.no
                },
                FixedSlot::No => {
                    &&& final(self).config.dialogs == old(self).config.dialogs
                    &&& final(self).config.yes == old(self).config.yes
                    &&& final(self).config.no == (Binding {
                        x,
                        y,
                        click_type: old(self).config.no.click_type,
                    })
                },
            },
    {
        self.config.set_fixed_offset(slot, x, y);
    }
}

} // verus!

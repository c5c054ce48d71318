//! The binding store: fixed dialog slots, the `Yes`/`No` slots, dynamically
//! named custom bindings, and the invariants that the edit operations keep.

use crate::text::dec_digits;
use crate::text::lemma_dec_digits_injective;
use crate::text::lemma_dec_digits_shape;
use crate::text::push_dec_digits;
use crate::text::push_str_chars;
use crate::text::string_from_chars;
use vstd::prelude::*;
use vstd::set_lib::lemma_int_range;
use vstd::set_lib::lemma_len_subset;
use vstd::set_lib::lemma_map_size;
use vstd::set_lib::set_int_range;

verus! {

/// Which mouse button a binding synthesizes.
#[derive(Clone, Copy, PartialEq, Eq, Structural, Debug)]
pub enum ClickType {
    Left,
    Right,
}

impl Default for ClickType {
    fn default() -> (r: Self)
        ensures
            r == ClickType::Left,
    {
        ClickType::Left
    }
}

/// A click target: an offset relative to the screen center and a button.
/// The offset is not clamped; it may point outside the visible screen.
#[derive(Clone, Copy, PartialEq, Eq, Structural, Debug)]
pub struct Binding {
    pub x: i32,
    pub y: i32,
    pub click_type: ClickType,
}

/// A user-named binding beyond the eleven fixed slots.
#[derive(Clone, Debug)]
pub struct CustomBinding {
    pub name: String,
    pub binding: Binding,
}

/// The full persisted state: nine "Dialog" slots, the "Yes" and "No" slots,
/// the ordered custom bindings, and the counter behind generated names.
#[derive(Clone, Debug)]
pub struct Config {
    pub dialogs: Vec<Binding>,
    pub yes: Binding,
    pub no: Binding,
    pub custom: Vec<CustomBinding>,
    pub next_custom_id: u32,
}

/// Some custom entry carries exactly this name.
pub open spec fn name_taken(custom: Seq<CustomBinding>, name: Seq<char>) -> bool {
    exists|i: int| 0 <= i < custom.len() && custom[i].name@ == name
}

/// No two custom entries share a name.
pub open spec fn names_unique(custom: Seq<CustomBinding>) -> bool {
    forall|i: int, j: int|
        0 <= i < j < custom.len() ==> custom[i].name@ != custom[j].name@
}

/// Every custom entry has a non-empty name.
pub open spec fn names_nonempty(custom: Seq<CustomBinding>) -> bool {
    forall|i: int| 0 <= i < custom.len() ==> custom[i].name@.len() > 0
}

/// The index of the custom entry named `name`; meaningful when the name is
/// taken and names are unique.
pub open spec fn custom_index(custom: Seq<CustomBinding>, name: Seq<char>) -> int {
    choose|i: int| 0 <= i < custom.len() && custom[i].name@ == name
}

/// The default binding of dialog slot `i`: a column down the screen center.
pub open spec fn spec_default_dialog(i: int) -> Binding {
    Binding { x: -260i32, y: (-280 + 48 * i) as i32, click_type: ClickType::Left }
}

impl Config {
    /// The store's invariant: nine dialog slots, and custom names unique and
    /// non-empty.
    pub open spec fn wf(self) -> bool {
        &&& self.dialogs@.len() == 9
        &&& names_unique(self.custom@)
        &&& names_nonempty(self.custom@)
    }

    /// The documented default configuration: nine dialog slots in a column
    /// at x = -260 starting at y = -280 with a 48 pixel pitch, "Yes" at
    /// (0, 54), "No" at (130, 54), no custom bindings, the counter at 1.
    pub open spec fn is_default(self) -> bool {
        &&& self.dialogs@.len() == 9
        &&& forall|i: int| 0 <= i < 9 ==> self.dialogs@[i] == spec_default_dialog(i)
        &&& self.yes == (Binding { x: 0i32, y: 54i32, click_type: ClickType::Left })
        &&& self.no == (Binding { x: 130i32, y: 54i32, click_type: ClickType::Left })
        &&& self.custom@ =~= Seq::<CustomBinding>::empty()
        &&& self.next_custom_id == 1
    }
}

impl Default for Config {
    /// Builds the documented default configuration.
    fn default() -> (r: Self)
        ensures
            r.wf(),
            r.is_default(),
    {
        let mut dialogs: Vec<Binding> = Vec::new();
        let mut i: usize = 0;
        let mut y: i32 = -280;
        while i < 9
            invariant
                i <= 9,
                y == -280 + 48 * i,
                dialogs@.len() == i,
                forall|k: int| 0 <= k < i ==> dialogs@[k] == spec_default_dialog(k),
            decreases 9 - i,
        {
            dialogs.push(Binding { x: -260, y, click_type: ClickType::Left });
            y = y + 48;
            i = i + 1;
        }
        Config {
            dialogs,
            yes: Binding { x: 0, y: 54, click_type: ClickType::Left },
            no: Binding { x: 130, y: 54, click_type: ClickType::Left },
            custom: Vec::new(),
            next_custom_id: 1,
        }
    }
}

/// Why an edit of the store was rejected.
#[derive(Clone, Copy, PartialEq, Eq, Structural, Debug)]
pub enum StoreError {
    EmptyName,
    DuplicateName,
    NoSuchBinding,
}

/// A fixed slot of the store: one of the nine dialog slots, or the special
/// "Yes" or "No" slot.
#[derive(Clone, Copy, PartialEq, Eq, Structural, Debug)]
pub enum FixedSlot {
    Dialog(usize),
    Yes,
    No,
}

impl FixedSlot {
    /// A dialog slot index stays below nine.
    pub open spec fn valid(self) -> bool {
        match self {
            FixedSlot::Dialog(i) => i < 9,
            _ => true,
        }
    }
}

/// The generated name of the `k`-th custom macro.
pub open spec fn macro_name(k: nat) -> Seq<char> {
    "New Macro "@ + dec_digits(k)
}

/// `k` is the least positive number whose generated name is free.
pub open spec fn is_fresh_k(custom: Seq<CustomBinding>, k: nat) -> bool {
    &&& 1 <= k
    &&& !name_taken(custom, macro_name(k))
    &&& forall|m: nat| 1 <= m < k ==> name_taken(custom, macro_name(m))
}

/// The least positive number whose generated name is absent from `custom`;
/// `lemma_fresh_k_exists` shows it exists and is at most `custom.len() + 1`.
pub open spec fn fresh_k(custom: Seq<CustomBinding>) -> nat {
    choose|k: nat| is_fresh_k(custom, k)
}

/// Distinct numbers give distinct generated names.
pub proof fn lemma_macro_name_injective(a: nat, b: nat)
    requires
        macro_name(a) == macro_name(b),
    ensures
        a == b,
{
    let p = "New Macro "@;
    assert(macro_name(a).skip(p.len() as int) =~= dec_digits(a));
    assert(macro_name(b).skip(p.len() as int) =~= dec_digits(b));
    lemma_dec_digits_injective(a, b);
}

proof fn lemma_least_fresh(custom: Seq<CustomBinding>, k: nat)
    requires
        1 <= k,
        !name_taken(custom, macro_name(k)),
    ensures
        exists|j: nat| is_fresh_k(custom, j) && j <= k,
    decreases k,
{
    if forall|m: nat| 1 <= m < k ==> name_taken(custom, macro_name(m)) {
        assert(is_fresh_k(custom, k));
    } else {
        let m = choose|m: nat| 1 <= m < k && !name_taken(custom, macro_name(m));
        lemma_least_fresh(custom, m);
    }
}

/// Two least free numbers are the same number.
pub proof fn lemma_fresh_k_unique(custom: Seq<CustomBinding>, j1: nat, j2: nat)
    requires
        is_fresh_k(custom, j1),
        is_fresh_k(custom, j2),
    ensures
        j1 == j2,
{
    if j1 < j2 {
        assert(name_taken(custom, macro_name(j1)));
    }
    if j2 < j1 {
        assert(name_taken(custom, macro_name(j2)));
    }
}

/// By counting: among the first `custom.len() + 1` generated names, at least
/// one is absent from `custom`, so the least free number exists and is at
/// most `custom.len() + 1`.
pub proof fn lemma_fresh_k_exists(custom: Seq<CustomBinding>)
    ensures
        is_fresh_k(custom, fresh_k(custom)),
        1 <= fresh_k(custom) <= custom.len() + 1,
{
    let n = custom.len() as int;
    if forall|k: int| 1 <= k < n + 2 ==> #[trigger] name_taken(custom, macro_name(k as nat)) {
        let t = set_int_range(1, n + 2);
        let f = |k: int| custom_index(custom, macro_name(k as nat));
        lemma_int_range(1, n + 2);
        assert forall|k: int| t.contains(k) implies 0 <= #[trigger] f(k) < n && custom[f(
            k,
        )].name@ == macro_name(k as nat) by {
            assert(name_taken(custom, macro_name(k as nat)));
            assert(0 <= custom_index(custom, macro_name(k as nat)) < custom.len() && custom[
                custom_index(custom, macro_name(k as nat))
            ].name@ == macro_name(k as nat));
        }
        assert forall|k1: int, k2: int|
            t.contains(k1) && t.contains(k2) && #[trigger] f(k1) == #[trigger] f(
                k2,
            ) implies k1 == k2 by {
            if k1 != k2 {
                assert(custom[f(k1)].name@ == macro_name(k1 as nat));
                assert(custom[f(k2)].name@ == macro_name(k2 as nat));
                lemma_macro_name_injective(k1 as nat, k2 as nat);
            }
        }
        assert(vstd::relations::injective_on(f, t));
        let y = t.map(f);
        lemma_map_size(t, y, f);
        assert forall|b: int| y.contains(b) implies set_int_range(0, n).contains(b) by {
            let a = choose|a: int| t.contains(a) && f(a) == b;
            assert(0 <= f(a) < n);
        }
        lemma_int_range(0, n);
        lemma_len_subset(y, set_int_range(0, n));
        assert(false);
    }
    let k0 = choose|k: int| 1 <= k < n + 2 && !(#[trigger] name_taken(custom, macro_name(k as nat)));
    lemma_least_fresh(custom, k0 as nat);
    let j = choose|j: nat| is_fresh_k(custom, j) && j <= k0 as nat;
    assert(is_fresh_k(custom, fresh_k(custom)));
    lemma_fresh_k_unique(custom, j, fresh_k(custom));
}

/// Law: adding the freshly generated entry changes which name is generated
/// next, so repeated additions produce strictly distinct names.
pub proof fn lemma_repeated_fresh_names_distinct(custom: Seq<CustomBinding>, cb: CustomBinding)
    requires
        cb.name@ == macro_name(fresh_k(custom)),
    ensures
        macro_name(fresh_k(custom.push(cb))) != macro_name(fresh_k(custom)),
{
    lemma_fresh_k_exists(custom);
    lemma_fresh_k_exists(custom.push(cb));
    let s1 = custom.push(cb);
    assert(s1[custom.len() as int].name@ == macro_name(fresh_k(custom)));
    assert(name_taken(s1, macro_name(fresh_k(custom))));
}

/// The generated name of `k`, as a string.
pub fn make_macro_name(k: u32) -> (s: String)
    ensures
        s@ == macro_name(k as nat),
{
    let mut v: Vec<char> = Vec::new();
    push_str_chars(&mut v, "New Macro ");
    push_dec_digits(&mut v, k);
    string_from_chars(&v)
}

impl Config {
    /// Whether the custom names are unique and non-empty: the runtime check
    /// behind the store's invariant, for callers outside the proof.
    pub fn names_valid(custom: &Vec<CustomBinding>) -> (r: bool)
        ensures
            r == (names_unique(custom@) && names_nonempty(custom@)),
    {
        let n = custom.len();
        let mut i: usize = 0;
        while i < n
            invariant
                i <= n,
                n == custom@.len(),
                forall|p: int| 0 <= p < i ==> custom@[p].name@.len() > 0,
                forall|p: int, q: int| 0 <= p < q < custom@.len() && q < i ==> custom@[p].name@
                    != custom@[q].name@,
            decreases n - i,
        {
            if custom[i].name.as_str().unicode_len() == 0 {
                return false;
            }
            let mut j: usize = 0;
            while j < i
                invariant
                    j <= i < n,
                    n == custom@.len(),
                    forall|p: int| 0 <= p < j ==> custom@[p].name@ != custom@[i as int].name@,
                decreases i - j,
            {
                if custom[j].name == custom[i].name {
                    return false;
                }
                j = j + 1;
            }
            i = i + 1;
        }
        true
    }

    /// The store's invariant, decided at run time.
    pub fn check_wf(&self) -> (r: bool)
        ensures
            r == self.wf(),
    {
        self.dialogs.len() == 9 && Config::names_valid(&self.custom)
    }

    /// Whether some custom entry carries exactly this name.
    pub fn is_name_taken(&self, name: &String) -> (r: bool)
        ensures
            r == name_taken(self.custom@, name@),
    {
        let mut i: usize = 0;
        while i < self.custom.len()
            invariant
                i <= self.custom@.len(),
                forall|k: int| 0 <= k < i ==> self.custom@[k].name@ != name@,
            decreases self.custom@.len() - i,
        {
            if self.custom[i].name == *name {
                return true;
            }
            i = i + 1;
        }
        false
    }

    /// The position of the custom entry named `name`, if any.
    pub fn find_custom(&self, name: &String) -> (r: Option<usize>)
        ensures
            match r {
                Some(i) => {
                    &&& i < self.custom@.len()
                    &&& self.custom@[i as int].name@ == name@
                    &&& (names_unique(self.custom@) ==> i == custom_index(self.custom@, name@))
                },
                None => !name_taken(self.custom@, name@),
            },
    {
        let mut i: usize = 0;
        while i < self.custom.len()
            invariant
                i <= self.custom@.len(),
                forall|k: int| 0 <= k < i ==> self.custom@[k].name@ != name@,
            decreases self.custom@.len() - i,
        {
            if self.custom[i].name == *name {
                proof {
                    if names_unique(self.custom@) {
                        let j = custom_index(self.custom@, name@);
                        assert(0 <= j < self.custom@.len() && self.custom@[j].name@ == name@);
                    }
                }
                return Some(i);
            }
            i = i + 1;
        }
        None
    }

    /// Sets the offset of a fixed slot; always succeeds and touches nothing
    /// else.
    pub fn set_fixed_offset(&mut self, slot: FixedSlot, x: i32, y: i32)
        requires
            old(self).wf(),
            slot.valid(),
        ensures
            final(self).wf(),
            final(self).custom == old(self).custom,
            final(self).next_custom_id == old(self).next_custom_id,
            match slot {
                FixedSlot::Dialog(i) => {
                    &&& final(self).dialogs@ == old(self).dialogs@.update(
                        i as int,
                        (Binding { x, y, click_type: old(self).dialogs@[i as int].click_type }),
                    )
                    &&& final(self).yes == old(self).yes
                    &&& final(self).no == old(self).no
                },
                FixedSlot::Yes => {
                    &&& final(self).dialogs == old(self).dialogs
                    &&& final(self).yes == (Binding { x, y, click_type: old(self).yes.click_type })
                    &&& final(self).no == old(self).no
                },
                FixedSlot::No => {
                    &&& final(self).dialogs == old(self).dialogs
                    &&& final(self).yes == old(self).yes
                    &&& final(self).no == (Binding { x, y, click_type: old(self).no.click_type })
                },
            },
    {
        match slot {
            FixedSlot::Dialog(i) => {
                let kind = self.dialogs[i].click_type;
                self.dialogs[i] = Binding { x, y, click_type: kind };
            },
            FixedSlot::Yes => {
                self.yes = Binding { x, y, click_type: self.yes.click_type };
            },
            FixedSlot::No => {
                self.no = Binding { x, y, click_type: self.no.click_type };
            },
        }
    }

    /// Sets the button of a fixed slot; always succeeds.
    pub fn set_fixed_click_kind(&mut self, slot: FixedSlot, kind: ClickType)
        requires
            old(self).wf(),
            slot.valid(),
        ensures
            final(self).wf(),
            final(self).custom == old(self).custom,
            final(self).next_custom_id == old(self).next_custom_id,
            match slot {
                FixedSlot::Dialog(i) => {
                    &&& final(self).dialogs@ == old(self).dialogs@.update(
                        i as int,
                        (Binding {
                            x: old(self).dialogs@[i as int].x,
                            y: old(self).dialogs@[i as int].y,
                            click_type: kind,
                        }),
                    )
                    &&& final(self).yes == old(self).yes
                    &&& final(self).no == old(self).no
                },
                FixedSlot::Yes => {
                    &&& final(self).dialogs == old(self).dialogs
                    &&& final(self).yes == (Binding {
                        x: old(self).yes.x,
                        y: old(self).yes.y,
                        click_type: kind,
                    })
                    &&& final(self).no == old(self).no
                },
                FixedSlot::No => {
                    &&& final(self).dialogs == old(self).dialogs
                    &&& final(self).yes == old(self).yes
                    &&& final(self).no == (Binding {
                        x: old(self).no.x,
                        y: old(self).no.y,
                        click_type: kind,
                    })
                },
            },
    {
        match slot {
            FixedSlot::Dialog(i) => {
                let b = self.dialogs[i];
                self.dialogs[i] = Binding { x: b.x, y: b.y, click_type: kind };
            },
            FixedSlot::Yes => {
                self.yes = Binding { x: self.yes.x, y: self.yes.y, click_type: kind };
            },
            FixedSlot::No => {
                self.no = Binding { x: self.no.x, y: self.no.y, click_type: kind };
            },
        }
    }

    /// Sets the offset of the custom entry named `name`; fails if and only
    /// if no entry has that name, and then changes nothing.
    pub fn set_custom_offset(&mut self, name: &String, x: i32, y: i32) -> (r: Result<
        (),
        StoreError,
    >)
        requires
            old(self).wf(),
        ensures
            final(self).wf(),
            r is Err <==> !name_taken(old(self).custom@, name@),
            r is Err ==> r == Err::<(), StoreError>(StoreError::NoSuchBinding) && *final(self)
                == *old(self),
            r is Ok ==> {
                let i = custom_index(old(self).custom@, name@);
                &&& final(self).custom@ == old(self).custom@.update(
                    i,
                    (CustomBinding {
                        name: old(self).custom@[i].name,
                        binding: (Binding {
                            x,
                            y,
                            click_type: old(self).custom@[i].binding.click_type,
                        }),
                    }),
                )
                &&& final(self).dialogs == old(self).dialogs
                &&& final(self).yes == old(self).yes
                &&& final(self).no == old(self).no
                &&& final(self).next_custom_id == old(self).next_custom_id
            },
    {
        match self.find_custom(name) {
            None => Err(StoreError::NoSuchBinding),
            Some(i) => {
                let kind = self.custom[i].binding.click_type;
                let nm = self.custom[i].name.clone();
                self.custom[i] = CustomBinding { name: nm, binding: Binding { x, y, click_type: kind } };
                proof {
                    assert(names_unique(self.custom@));
                }
                Ok(())
            },
        }
    }

    /// Sets the button of the custom entry named `name`; fails if and only
    /// if no entry has that name, and then changes nothing.
    pub fn set_custom_click_kind(&mut self, name: &String, kind: ClickType) -> (r: Result<
        (),
        StoreError,
    >)
        requires
            old(self).wf(),
        ensures
            final(self).wf(),
            r is Err <==> !name_taken(old(self).custom@, name@),
            r is Err ==> r == Err::<(), StoreError>(StoreError::NoSuchBinding) && *final(self)
                == *old(self),
            r is Ok ==> {
                let i = custom_index(old(self).custom@, name@);
                &&& final(self).custom@ == old(self).custom@.update(
                    i,
                    (CustomBinding {
                        name: old(self).custom@[i].name,
                        binding: (Binding {
                            x: old(self).custom@[i].binding.x,
                            y: old(self).custom@[i].binding.y,
                            click_type: kind,
                        }),
                    }),
                )
                &&& final(self).dialogs == old(self).dialogs
                &&& final(self).yes == old(self).yes
                &&& final(self).no == old(self).no
                &&& final(self).next_custom_id == old(self).next_custom_id
            },
    {
        match self.find_custom(name) {
            None => Err(StoreError::NoSuchBinding),
            Some(i) => {
                let b = self.custom[i].binding;
                let nm = self.custom[i].name.clone();
                self.custom[i] = CustomBinding {
                    name: nm,
                    binding: Binding { x: b.x, y: b.y, click_type: kind },
                };
                proof {
                    assert(names_unique(self.custom@));
                }
                Ok(())
            },
        }
    }

    /// Renames the custom entry `old_name` to `new_name`. Fails, changing
    /// nothing, when the new name is empty, when no entry carries the old
    /// name, or when another entry already carries the new name.
    pub fn rename_custom(&mut self, old_name: &String, new_name: &String) -> (r: Result<
        (),
        StoreError,
    >)
        requires
            old(self).wf(),
        ensures
            final(self).wf(),
            r is Err ==> *final(self) == *old(self),
            r == Err::<(), StoreError>(StoreError::EmptyName) <==> new_name@.len() == 0,
            r == Err::<(), StoreError>(StoreError::NoSuchBinding) <==> new_name@.len() > 0
                && !name_taken(old(self).custom@, old_name@),
            r == Err::<(), StoreError>(StoreError::DuplicateName) <==> new_name@.len() > 0
                && name_taken(old(self).custom@, old_name@) && name_taken(
                old(self).custom@,
                new_name@,
            ) && new_name@ != old_name@,
            r is Ok <==> new_name@.len() > 0 && name_taken(old(self).custom@, old_name@) && (
            new_name@ == old_name@ || !name_taken(old(self).custom@, new_name@)),
            r is Ok ==> {
                let i = custom_index(old(self).custom@, old_name@);
                &&& final(self).custom@ == old(self).custom@.update(
                    i,
                    (CustomBinding { name: *new_name, binding: old(self).custom@[i].binding }),
                )
                &&& final(self).dialogs == old(self).dialogs
                &&& final(self).yes == old(self).yes
                &&& final(self).no == old(self).no
                &&& final(self).next_custom_id == old(self).next_custom_id
            },
    {
        if new_name.unicode_len() == 0 {
            return Err(StoreError::EmptyName);
        }
        match self.find_custom(old_name) {
            None => Err(StoreError::NoSuchBinding),
            Some(i) => {
                proof {
                    assert(name_taken(self.custom@, old_name@));
                }
                if !(*new_name == *old_name) && self.is_name_taken(new_name) {
                    return Err(StoreError::DuplicateName);
                }
                let b = self.custom[i].binding;
                self.custom[i] = CustomBinding { name: new_name.clone(), binding: b };
                proof {
                    assert forall|p: int, q: int|
                        0 <= p < q < self.custom@.len() implies self.custom@[p].name@
                        != self.custom@[q].name@ by {
                        assert(old(self).custom@[p].name@ != old(self).custom@[q].name@);
                    }
                }
                Ok(())
            },
        }
    }

    /// Removes the custom entry named `name`; fails if and only if no entry
    /// has that name, and then changes nothing.
    pub fn remove_custom(&mut self, name: &String) -> (r: Result<(), StoreError>)
        requires
            old(self).wf(),
        ensures
            final(self).wf(),
            r is Err <==> !name_taken(old(self).custom@, name@),
            r is Err ==> r == Err::<(), StoreError>(StoreError::NoSuchBinding) && *final(self)
                == *old(self),
            r is Ok ==> {
                let i = custom_index(old(self).custom@, name@);
                &&& final(self).custom@ == old(self).custom@.remove(i)
                &&& !name_taken(final(self).custom@, name@)
                &&& final(self).dialogs == old(self).dialogs
                &&& final(self).yes == old(self).yes
                &&& final(self).no == old(self).no
                &&& final(self).next_custom_id == old(self).next_custom_id
            },
    {
        match self.find_custom(name) {
            None => Err(StoreError::NoSuchBinding),
            Some(i) => {
                self.custom.remove(i);
                proof {
                    let s0 = old(self).custom@;
                    let s1 = self.custom@;
                    let gi = i as int;
                    assert forall|p: int, q: int| 0 <= p < q < s1.len() implies s1[p].name@
                        != s1[q].name@ by {
                        let p0 = if p < gi { p } else { p + 1 };
                        let q0 = if q < gi { q } else { q + 1 };
                        assert(s0[p0].name@ != s0[q0].name@);
                    }
                    assert forall|p: int| 0 <= p < s1.len() implies s1[p].name@ != name@ by {
                        let p0 = if p < gi { p } else { p + 1 };
                        assert(s1[p] == s0[p0]);
                        if p0 != gi {
                            assert(s0[p0].name@ != s0[gi].name@);
                        }
                    }
                }
                Ok(())
            },
        }
    }

    /// Adds a new custom entry under a generated name: the first of
    /// "New Macro 1", "New Macro 2", ... absent from the current names. The
    /// new entry starts at offset (0, 0) with a left click, and the stored
    /// counter moves past the number just used.
    pub fn add_custom(&mut self) -> (name: String)
        requires
            old(self).wf(),
            old(self).custom@.len() + 1 < u32::MAX,
        ensures
            final(self).wf(),
            name@ == macro_name(fresh_k(old(self).custom@)),
            !name_taken(old(self).custom@, name@),
            final(self).custom@ == old(self).custom@.push(
                (CustomBinding {
                    name: name,
                    binding: (Binding { x: 0i32, y: 0i32, click_type: ClickType::Left }),
                }),
            ),
            name_taken(final(self).custom@, name@),
            final(self).next_custom_id == fresh_k(old(self).custom@) + 1,
            final(self).dialogs == old(self).dialogs,
            final(self).yes == old(self).yes,
            final(self).no == old(self).no,
    {
        proof {
            lemma_fresh_k_exists(self.custom@);
        }
        let ghost kf = fresh_k(self.custom@);
        let mut k: u32 = 1;
        let mut nm = make_macro_name(k);
        while self.is_name_taken(&nm)
            invariant
                self == old(self),
                old(self).wf(),
                old(self).custom@.len() + 1 < u32::MAX,
                is_fresh_k(self.custom@, kf),
                kf == fresh_k(self.custom@),
                kf <= self.custom@.len() + 1,
                1 <= k <= kf,
                nm@ == macro_name(k as nat),
            decreases kf - k,
        {
            proof {
                assert(name_taken(self.custom@, macro_name(k as nat)));
                assert(k != kf);
            }
            k = k + 1;
            nm = make_macro_name(k);
        }
        proof {
            assert(!name_taken(self.custom@, macro_name(k as nat)));
            if k < kf {
                assert(name_taken(self.custom@, macro_name(k as nat)));
            }
            assert(k == kf);
        }
        self.custom.push(
            CustomBinding { name: nm.clone(), binding: Binding { x: 0, y: 0, click_type: ClickType::Left } },
        );
        self.next_custom_id = k + 1;
        proof {
            let s0 = old(self).custom@;
            let s1 = self.custom@;
            lemma_dec_digits_shape(k as nat);
            assert(nm@.len() > 0);
            assert forall|p: int, q: int| 0 <= p < q < s1.len() implies s1[p].name@
                != s1[q].name@ by {
                if q < s0.len() {
                    assert(s0[p].name@ != s0[q].name@);
                } else {
                    assert(s1[q].name@ == nm@);
                    assert(!name_taken(s0, nm@));
                    assert(s1[p] == s0[p]);
                }
            }
            assert(names_nonempty(s1));
            assert(s1[s0.len() as int].name@ == nm@);
        }
        nm
    }
}

} // verus!

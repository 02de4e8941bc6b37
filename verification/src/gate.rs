//! Whether a key on the input bus is for the engine at all.
//!
//! Japanese input can be switched on and off, and a key that was used on its
//! way down must be used on its way up as well, or clients make up a press for
//! it. All of that is settled before a key gets a meaning.
use std::collections::HashSet;

use vstd::prelude::*;

use crate::config;
use crate::config::{BonolithConfig, CompiledToggleKey};
use crate::keymap;
use crate::keymap::{
    has_modifier, is_release, unshift_letter, IBUS_BINDING_MASK, IBUS_KEY_HENKAN_MODE,
    IBUS_KEY_MUHENKAN,
};

verus! {

/// For how many milliseconds after input was switched off releases are still
/// held back.
pub const DISABLE_GRACE_MS: u64 = 80;

/// For how many milliseconds a request forces input on.
pub const FORCE_WINDOW_MS: u64 = 5000;

/// What to do with a key.
#[derive(Clone, Copy, Debug, PartialEq, Eq, Structural)]
pub enum KeyGate {
    /// Leave it to the application.
    Pass,
    /// Use it up.
    Consume,
    /// Use it up, and give up what was typed and converted.
    CancelAndConsume,
    /// Find out what it means.
    Dispatch,
}

/// An engine on the input bus. Times are in milliseconds.
pub struct BonolithEngine {
    enabled: bool,
    toggle_keys: Vec<CompiledToggleKey>,
    object_path: String,
    pending_release: HashSet<u32>,
    disabled_at: Option<u64>,
}

/// The state of an engine on the input bus.
#[verifier::ext_equal]
pub struct GateView {
    /// Whether Japanese input is on.
    pub enabled: bool,
    /// The toggle keys.
    pub toggle_keys: Seq<CompiledToggleKey>,
    /// Keys that were used on their way down and are still to come up.
    pub pending_release: Set<u32>,
    /// When input was last switched off.
    pub disabled_at: Option<u64>,
    /// Where the engine lives on the bus.
    pub object_path: Seq<char>,
}

impl View for BonolithEngine {
    type V = GateView;

    closed spec fn view(&self) -> GateView {
        GateView {
            enabled: self.enabled,
            toggle_keys: self.toggle_keys@,
            pending_release: self.pending_release@,
            disabled_at: self.disabled_at,
            object_path: self.object_path@,
        }
    }
}

/// Does the key set off one of the toggles?
pub open spec fn toggles(keys: Seq<CompiledToggleKey>, keyval: u32, state: u32) -> bool {
    exists|i: int|
        0 <= i < keys.len() && config::fires(
            #[trigger] keys[i],
            keyval,
            state & IBUS_BINDING_MASK,
        )
}

/// Is a request to force input on in effect?
pub open spec fn forced(deadline: Option<u64>, now: u64) -> bool {
    deadline matches Some(d) && now < d
}

/// Was input switched off only just now?
pub open spec fn just_disabled(v: GateView, now: u64) -> bool {
    v.disabled_at matches Some(t) && now - t < DISABLE_GRACE_MS
}

/// The state with a request to force input on taken into account.
pub open spec fn force_applied(v: GateView, deadline: Option<u64>, now: u64) -> GateView {
    if forced(deadline, now) {
        GateView { enabled: true, ..v }
    } else {
        v
    }
}

/// The state after a key that switches input off.
pub open spec fn switched_off(v: GateView, keyval: u32, now: u64) -> GateView {
    GateView {
        enabled: false,
        disabled_at: Some(now),
        pending_release: v.pending_release.insert(keymap::unshifted(keyval)),
        ..v
    }
}

/// What becomes of a key that comes up.
pub open spec fn gate_release(v: GateView, keyval: u32, now: u64) -> (GateView, KeyGate) {
    let key = keymap::unshifted(keyval);
    if v.pending_release.contains(key) {
        (GateView { pending_release: v.pending_release.remove(key), ..v }, KeyGate::Consume)
    } else if v.enabled || just_disabled(v, now) {
        (v, KeyGate::Consume)
    } else {
        (v, KeyGate::Pass)
    }
}

/// What becomes of a key that goes down.
pub open spec fn gate_press(v: GateView, keyval: u32, state: u32, now: u64) -> (
    GateView,
    KeyGate,
) {
    let toggle = toggles(v.toggle_keys, keyval, state);
    let plain = !keymap::commanding(state);
    if plain && !toggle && keyval == IBUS_KEY_HENKAN_MODE {
        (GateView { enabled: true, ..v }, KeyGate::Consume)
    } else if plain && !toggle && keyval == IBUS_KEY_MUHENKAN {
        (switched_off(v, keyval, now), KeyGate::CancelAndConsume)
    } else if toggle && v.enabled {
        (switched_off(v, keyval, now), KeyGate::CancelAndConsume)
    } else if toggle {
        (
            GateView {
                enabled: true,
                pending_release: v.pending_release.insert(keymap::unshifted(keyval)),
                ..v
            },
            KeyGate::Consume,
        )
    } else if plain && v.enabled {
        (v, KeyGate::Dispatch)
    } else {
        (v, KeyGate::Pass)
    }
}

/// What becomes of a key. `deadline` is when a request to force input on runs
/// out.
pub open spec fn gated(
    v: GateView,
    keyval: u32,
    state: u32,
    deadline: Option<u64>,
    now: u64,
) -> (GateView, KeyGate) {
    if keymap::released(state) {
        gate_release(v, keyval, now)
    } else {
        gate_press(force_applied(v, deadline, now), keyval, state, now)
    }
}

impl BonolithEngine {
    /// An engine with input switched off.
    pub fn new(config: &BonolithConfig, object_path: String) -> (engine: BonolithEngine)
        ensures
            engine@ == (GateView {
                enabled: false,
                toggle_keys: config::compiled(config@),
                pending_release: Set::empty(),
                disabled_at: None,
                object_path: object_path@,
            }),
    {
        BonolithEngine {
            enabled: false,
            toggle_keys: config.compile_toggle_keys(),
            object_path,
            pending_release: HashSet::new(),
            disabled_at: None,
        }
    }

    /// Is Japanese input on?
    pub fn is_enabled(&self) -> (yes: bool)
        ensures
            yes == self@.enabled,
    {
        self.enabled
    }

    /// Where the engine lives on the bus.
    pub fn path(&self) -> (path: &String)
        ensures
            path@ == self@.object_path,
    {
        &self.object_path
    }

    /// Switches input on while a request to do so is in effect. Tells whether
    /// one is.
    pub fn apply_force_enable(&mut self, deadline: Option<u64>, now: u64) -> (active: bool)
        ensures
            active == forced(deadline, now),
            final(self)@ == force_applied(old(self)@, deadline, now),
    {
        let active: bool = match deadline {
            Some(d) => now < d,
            None => false,
        };
        if active {
            self.enabled = true;
        }
        active
    }

    /// Does the key set off one of the toggles?
    fn is_toggle_key(&self, keyval: u32, state: u32) -> (yes: bool)
        ensures
            yes == toggles(self@.toggle_keys, keyval, state),
    {
        let modifiers: u32 = state & IBUS_BINDING_MASK;
        let mut i: usize = 0;
        while i < self.toggle_keys.len()
            invariant
                i <= self.toggle_keys@.len(),
                modifiers == state & IBUS_BINDING_MASK,
                forall|k: int|
                    0 <= k < i ==> !config::fires(
                        #[trigger] self.toggle_keys@[k],
                        keyval,
                        modifiers,
                    ),
            decreases self.toggle_keys@.len() - i,
        {
            if self.toggle_keys[i].matches(keyval, modifiers) {
                assert(config::fires(self@.toggle_keys[i as int], keyval, modifiers));
                return true;
            }
            i = i + 1;
        }
        false
    }

    /// Switches input off for a key, whose release is then held back.
    fn switch_off(&mut self, keyval: u32, now: u64)
        ensures
            final(self)@ == switched_off(old(self)@, keyval, now),
    {
        broadcast use vstd::std_specs::hash::group_hash_axioms;

        self.enabled = false;
        self.disabled_at = Some(now);
        self.pending_release.insert(unshift_letter(keyval));
    }

    /// What becomes of a key.
    pub fn process_key_event(
        &mut self,
        keyval: u32,
        state: u32,
        deadline: Option<u64>,
        now: u64,
    ) -> (gate: KeyGate)
        ensures
            (final(self)@, gate) == gated(old(self)@, keyval, state, deadline, now),
    {
        broadcast use vstd::std_specs::hash::group_hash_axioms;

        if is_release(state) {
            let ghost v = self@;
            let owed: bool = self.pending_release.remove(&unshift_letter(keyval));
            if owed {
                return KeyGate::Consume;
            }
            assert(self@.pending_release =~= v.pending_release);
            if self.enabled {
                return KeyGate::Consume;
            }
            let recent: bool = match self.disabled_at {
                Some(t) => now < t || now - t < DISABLE_GRACE_MS,
                None => false,
            };
            return if recent {
                KeyGate::Consume
            } else {
                KeyGate::Pass
            };
        }
        self.apply_force_enable(deadline, now);
        let toggle: bool = self.is_toggle_key(keyval, state);
        let plain: bool = !has_modifier(state);
        if plain && !toggle {
            if keyval == IBUS_KEY_HENKAN_MODE {
                self.enabled = true;
                return KeyGate::Consume;
            }
            if keyval == IBUS_KEY_MUHENKAN {
                self.switch_off(keyval, now);
                return KeyGate::CancelAndConsume;
            }
        }
        if toggle {
            if self.enabled {
                self.switch_off(keyval, now);
                return KeyGate::CancelAndConsume;
            }
            self.enabled = true;
            self.pending_release.insert(unshift_letter(keyval));
            return KeyGate::Consume;
        }
        if plain && self.enabled {
            KeyGate::Dispatch
        } else {
            KeyGate::Pass
        }
    }

    /// The focus was lost: releases that were still awaited may never come.
    /// Whether input is on stays as it is.
    pub fn focus_out(&mut self)
        ensures
            final(self)@ == (GateView { pending_release: Set::empty(), ..old(self)@ }),
    {
        broadcast use vstd::std_specs::hash::group_hash_axioms;

        self.pending_release.clear();
        assert(self@.pending_release =~= Set::empty());
    }

    /// Switches input off.
    pub fn disable(&mut self, now: u64)
        ensures
            final(self)@ == (GateView {
                enabled: false,
                disabled_at: Some(now),
                pending_release: Set::empty(),
                ..old(self)@
            }),
    {
        self.enabled = false;
        self.disabled_at = Some(now);
        self.focus_out();
    }
}

/// A key that switched input off or on is used on its way up too, with or
/// without Shift, whatever state input is in by then.
pub proof fn law_toggle_release_is_used(
    v: GateView,
    keyval: u32,
    state: u32,
    deadline: Option<u64>,
    now: u64,
    up: u32,
    up_state: u32,
    later: u64,
)
    requires
        !keymap::released(state),
        toggles(v.toggle_keys, keyval, state),
        keymap::released(up_state),
        keymap::unshifted(up) == keymap::unshifted(keyval),
    ensures
        gated(gated(v, keyval, state, deadline, now).0, up, up_state, deadline, later).1
            == KeyGate::Consume,
{
}

/// While input is off, a key that is no toggle and no key to switch input on
/// goes by without effect, up and down, unless input is forced on.
pub proof fn law_off_means_off(
    v: GateView,
    keyval: u32,
    state: u32,
    deadline: Option<u64>,
    now: u64,
)
    requires
        !v.enabled,
        !forced(deadline, now),
        !just_disabled(v, now),
        !toggles(v.toggle_keys, keyval, state),
        keyval != IBUS_KEY_HENKAN_MODE,
        keyval != IBUS_KEY_MUHENKAN,
        !v.pending_release.contains(keymap::unshifted(keyval)),
    ensures
        gated(v, keyval, state, deadline, now) == (v, KeyGate::Pass),
{
}

/// Toggling twice ends where it began: on or off as before.
pub proof fn law_toggle_twice(v: GateView, keyval: u32, state: u32, now: u64, later: u64)
    requires
        !keymap::released(state),
        toggles(v.toggle_keys, keyval, state),
    ensures
        gated(gated(v, keyval, state, None, now).0, keyval, state, None, later).0.enabled
            == v.enabled,
{
}

/// A key toggles if it is one of the toggle keys with exactly the modifiers that are
/// held, of Shift, Control and Alt.
pub proof fn law_toggle_keys(keys: Seq<CompiledToggleKey>, keyval: u32, state: u32, i: int)
    ensures
        0 <= i < keys.len() && keys[i].modifier_mask == state & 0xdu32 && (keys[i].keyval == keyval
            || (0x41 <= keyval <= 0x5a && keys[i].keyval == keyval + 0x20)) ==> toggles(
            keys,
            keyval,
            state,
        ),
        (forall|k: int|
            0 <= k < keys.len() ==> (#[trigger] keys[k]).modifier_mask != state & 0xdu32 || !(
            keys[k].keyval == keyval || (0x41 <= keyval <= 0x5a && keys[k].keyval == keyval
                + 0x20))) ==> !toggles(keys, keyval, state),
{
    if 0 <= i < keys.len() {
        config::law_when_toggle_fires(keys[i], keyval, state & 0xdu32);
    }
}

/// A toggle key switches input on or off. Switching off gives up what was typed and is
/// remembered with its time. Either way the key is used, on its way up too.
pub proof fn law_toggle_switches(
    v: GateView,
    keyval: u32,
    state: u32,
    deadline: Option<u64>,
    now: u64,
)
    requires
        !keymap::released(state),
        toggles(v.toggle_keys, keyval, state),
    ensures
        ({
            let on = v.enabled || (deadline matches Some(d) && now < d);
            let out = gated(v, keyval, state, deadline, now);
            &&& out.0.enabled == !on
            &&& out.1 == (if on {
                KeyGate::CancelAndConsume
            } else {
                KeyGate::Consume
            })
            &&& out.0.disabled_at == (if on {
                Some(now)
            } else {
                v.disabled_at
            })
            &&& out.0.pending_release == v.pending_release.insert(keymap::unshifted(keyval))
            &&& out.0.toggle_keys == v.toggle_keys && out.0.object_path == v.object_path
        }),
{
}

/// The key between kana and kanji switches input on, the one that keeps kana switches
/// it off; both are used.
pub proof fn law_conversion_keys_switch(
    v: GateView,
    keyval: u32,
    state: u32,
    deadline: Option<u64>,
    now: u64,
)
    requires
        !keymap::released(state),
        !keymap::commanding(state),
        !toggles(v.toggle_keys, keyval, state),
        keyval == 0xFF23 || keyval == 0xFF22,
    ensures
        ({
            let out = gated(v, keyval, state, deadline, now);
            &&& out.0.enabled == (keyval == 0xFF23)
            &&& keyval == 0xFF23 ==> out.1 == KeyGate::Consume && out.0.pending_release
                == v.pending_release && out.0.disabled_at == v.disabled_at
            &&& keyval == 0xFF22 ==> out.1 == KeyGate::CancelAndConsume && out.0.disabled_at
                == Some(now) && out.0.pending_release == v.pending_release.insert(0xFF22u32)
            &&& out.0.toggle_keys == v.toggle_keys && out.0.object_path == v.object_path
        }),
{
}

/// While input is on, or forced on, every other plain key that goes down is looked at;
/// commands reach the application. Nothing else changes.
pub proof fn law_plain_keys_are_looked_at(
    v: GateView,
    keyval: u32,
    state: u32,
    deadline: Option<u64>,
    now: u64,
)
    requires
        !keymap::released(state),
        !toggles(v.toggle_keys, keyval, state),
        keymap::commanding(state) || (keyval != 0xFF23 && keyval != 0xFF22),
    ensures
        ({
            let on = v.enabled || (deadline matches Some(d) && now < d);
            let out = gated(v, keyval, state, deadline, now);
            &&& out.0 == (GateView { enabled: on, ..v })
            &&& out.1 == (if on && !keymap::commanding(state) {
                KeyGate::Dispatch
            } else {
                KeyGate::Pass
            })
        }),
{
}

/// A key that comes up is used if it was used on its way down, while input is on, and
/// for 80 milliseconds after it was switched off; else it reaches the application.
pub proof fn law_keys_come_up(
    v: GateView,
    keyval: u32,
    state: u32,
    deadline: Option<u64>,
    now: u64,
)
    requires
        keymap::released(state),
    ensures
        ({
            let key = keymap::unshifted(keyval);
            let out = gated(v, keyval, state, deadline, now);
            &&& out.1 == (if v.pending_release.contains(key) || v.enabled || (
            v.disabled_at matches Some(t) && now < t + 80) {
                KeyGate::Consume
            } else {
                KeyGate::Pass
            })
            &&& out.0 == (GateView { pending_release: v.pending_release.remove(key), ..v })
        }),
{
    let key = keymap::unshifted(keyval);
    if !v.pending_release.contains(key) {
        assert(v.pending_release.remove(key) =~= v.pending_release);
    }
}

} // verus!

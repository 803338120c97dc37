//! The sampler's per-tick decisions: given what the devices and the window
//! query reported, update the last-input timestamp, count the input events
//! (debounced), credit the active application when the idle policy allows,
//! and say whether the periodic flush is due. The caller runs the loop,
//! reads the devices and performs the flush; every decision lives here.

use vstd::prelude::*;
use crate::codec::{enc_u64, push_u64, string_of};
use crate::policy::{
    spec_gap, spec_should_credit, should_credit, should_flush, TrackingConfig, DEBOUNCE_MS,
    SAVE_INTERVAL_MS, TICK_MS,
};
use crate::store::{spec_bump, AggregateStore};

verus! {

/// The sampler's own state between ticks.
pub struct SamplerState {
    /// When the last user input was seen, in milliseconds.
    pub last_input_ms: u64,
    /// When the last periodic flush was started, in milliseconds.
    pub last_save_ms: u64,
    /// The pointer position at the previous tick.
    pub mouse_x: i32,
    /// The pointer position at the previous tick.
    pub mouse_y: i32,
}

/// What one tick observed: the clock, the devices, and the active window.
pub struct TickObservation {
    /// The clock at this tick, in milliseconds.
    pub now_ms: u64,
    /// The pointer position now.
    pub mouse_x: i32,
    /// The pointer position now.
    pub mouse_y: i32,
    /// One flag per mouse button, true while pressed.
    pub buttons: Vec<bool>,
    /// The names of the keys pressed now.
    pub keys: Vec<String>,
    /// The active application's label, or nothing when the window query
    /// failed; the failure is credited under the empty label.
    pub active_app: Option<String>,
}

/// The input-stats label of one mouse button.
pub open spec fn click_label(i: nat) -> Seq<char> {
    seq!['M', 'o', 'u', 's', 'e', ' ', 'c', 'l', 'i', 'c', 'k', ':', ' '] + enc_u64(i)
}

/// The input-stats label of pointer motion.
pub open spec fn move_label() -> Seq<char> {
    seq!['M', 'o', 'u', 's', 'e', ' ', 'm', 'o', 'v', 'e']
}

/// The labels of the buttons pressed, from button `i` up, in button order.
pub open spec fn click_labels_from(buttons: Seq<bool>, i: int) -> Seq<Seq<char>>
    decreases buttons.len() - i,
{
    if i < 0 || i >= buttons.len() {
        Seq::empty()
    } else if buttons[i] {
        seq![click_label(i as nat)] + click_labels_from(buttons, i + 1)
    } else {
        click_labels_from(buttons, i + 1)
    }
}

/// The labels of the keys pressed, in the reported order.
pub open spec fn key_labels(keys: Seq<String>) -> Seq<Seq<char>> {
    keys.map_values(|k: String| k@)
}

/// Whether the pointer moved since the previous tick.
pub open spec fn spec_moved(state: SamplerState, obs: TickObservation) -> bool {
    state.mouse_x != obs.mouse_x || state.mouse_y != obs.mouse_y
}

/// Whether any input was observed on this tick.
pub open spec fn spec_any_input(state: SamplerState, obs: TickObservation) -> bool {
    ||| exists|i: int| 0 <= i < obs.buttons@.len() && obs.buttons@[i]
    ||| spec_moved(state, obs)
    ||| obs.keys@.len() > 0
}

/// Every input-stats label this tick counts, in counting order: the pressed
/// buttons, then pointer motion, then the pressed keys.
pub open spec fn tick_labels(state: SamplerState, obs: TickObservation) -> Seq<Seq<char>> {
    click_labels_from(obs.buttons@, 0) + (if spec_moved(state, obs) {
        seq![move_label()]
    } else {
        Seq::empty()
    }) + key_labels(obs.keys@)
}

/// The label the tick credits: the active application, or the empty label
/// when the window query failed.
pub open spec fn active_label(obs: TickObservation) -> Seq<char> {
    match obs.active_app {
        Some(s) => s@,
        None => Seq::empty(),
    }
}

/// A store's contents after counting each label of a list once, in order.
pub open spec fn bump_seq(m: Map<Seq<char>, u64>, labels: Seq<Seq<char>>) -> Map<Seq<char>, u64>
    decreases labels.len(),
{
    if labels.len() == 0 {
        m
    } else {
        bump_seq(m.insert(labels[0], spec_bump(m, labels[0], 1)), labels.drop_first())
    }
}

/// The last-input timestamp after the tick: the tick's clock when any input
/// was observed, unchanged otherwise.
pub open spec fn next_last_input(state: SamplerState, obs: TickObservation) -> u64 {
    if spec_any_input(state, obs) {
        obs.now_ms
    } else {
        state.last_input_ms
    }
}

/// Counting input events never lowers any counter: whatever labels a tick
/// counts, every value in the store stays or grows, and no entry vanishes.
pub proof fn lemma_bump_seq_monotonic(m: Map<Seq<char>, u64>, labels: Seq<Seq<char>>)
    ensures
        forall|k: Seq<char>|
            m.contains_key(k) ==> #[trigger] bump_seq(m, labels).contains_key(k) && m[k]
                <= bump_seq(m, labels)[k],
    decreases labels.len(),
{
    if labels.len() > 0 {
        let m1 = m.insert(labels[0], spec_bump(m, labels[0], 1));
        lemma_bump_seq_monotonic(m1, labels.drop_first());
        assert forall|k: Seq<char>| m.contains_key(k) implies #[trigger] bump_seq(
            m,
            labels,
        ).contains_key(k) && m[k] <= bump_seq(m, labels)[k] by {
            assert(m1.contains_key(k) && m[k] <= m1[k]);
            assert(bump_seq(m1, labels.drop_first()).contains_key(k));
        }
    }
}

/// Counting two lists in a row is counting their concatenation.
proof fn lemma_bump_seq_concat(m: Map<Seq<char>, u64>, a: Seq<Seq<char>>, b: Seq<Seq<char>>)
    ensures
        bump_seq(m, a + b) == bump_seq(bump_seq(m, a), b),
    decreases a.len(),
{
    if a.len() == 0 {
        assert(a + b =~= b);
    } else {
        assert((a + b)[0] == a[0]);
        assert((a + b).drop_first() =~= a.drop_first() + b);
        lemma_bump_seq_concat(m.insert(a[0], spec_bump(m, a[0], 1)), a.drop_first(), b);
    }
}

/// Builds the input-stats label of one mouse button.
fn click_label_string(i: usize) -> (r: String)
    ensures
        r@ == click_label(i as nat),
{
    let mut out: Vec<char> = Vec::new();
    out.push('M');
    out.push('o');
    out.push('u');
    out.push('s');
    out.push('e');
    out.push(' ');
    out.push('c');
    out.push('l');
    out.push('i');
    out.push('c');
    out.push('k');
    out.push(':');
    out.push(' ');
    let ghost mid = out@;
    push_u64(&mut out, i as u64);
    proof {
        assert(mid =~= seq!['M', 'o', 'u', 's', 'e', ' ', 'c', 'l', 'i', 'c', 'k', ':', ' ']);
    }
    string_of(&out)
}

/// Builds the input-stats label of pointer motion.
fn move_label_string() -> (r: String)
    ensures
        r@ == move_label(),
{
    let mut out: Vec<char> = Vec::new();
    out.push('M');
    out.push('o');
    out.push('u');
    out.push('s');
    out.push('e');
    out.push(' ');
    out.push('m');
    out.push('o');
    out.push('v');
    out.push('e');
    proof {
        assert(out@ =~= move_label());
    }
    string_of(&out)
}

/// Counts each pressed button from `i` up.
fn bump_clicks(stats: &mut AggregateStore, buttons: &Vec<bool>, i: usize)
    requires
        i <= buttons@.len(),
    ensures
        final(stats)@ == bump_seq(old(stats)@, click_labels_from(buttons@, i as int)),
    decreases buttons@.len() - i,
{
    if i == buttons.len() {
        proof {
            assert(click_labels_from(buttons@, i as int) =~= Seq::<Seq<char>>::empty());
        }
    } else {
        let ghost rest = click_labels_from(buttons@, i + 1);
        if buttons[i] {
            let label = click_label_string(i);
            stats.increment(&label, 1);
            proof {
                let ls = click_labels_from(buttons@, i as int);
                assert(ls == seq![click_label(i as nat)] + rest);
                assert(ls[0] == click_label(i as nat));
                assert(ls.drop_first() =~= rest);
            }
        }
        bump_clicks(stats, buttons, i + 1);
    }
}

/// Counts each pressed key from `i` up.
fn bump_keys(stats: &mut AggregateStore, keys: &Vec<String>, i: usize)
    requires
        i <= keys@.len(),
    ensures
        final(stats)@ == bump_seq(old(stats)@, key_labels(keys@).skip(i as int)),
    decreases keys@.len() - i,
{
    let ghost ls = key_labels(keys@).skip(i as int);
    if i == keys.len() {
        proof {
            assert(ls =~= Seq::<Seq<char>>::empty());
        }
    } else {
        stats.increment(&keys[i], 1);
        proof {
            assert(ls[0] == keys@[i as int]@);
            assert(ls.drop_first() =~= key_labels(keys@).skip(i + 1));
        }
        bump_keys(stats, keys, i + 1);
    }
}

/// One tick: counts the debounced input events, resets the last-input
/// timestamp on any input, credits the active application with the tick
/// duration when the idle policy allows, and decides whether the periodic
/// flush is due, resetting the flush clock when it is.
pub fn tick(
    state: &mut SamplerState,
    obs: &TickObservation,
    config: &TrackingConfig,
    activity: &mut AggregateStore,
    input_stats: &mut AggregateStore,
) -> (flush_due: bool)
    ensures
        final(input_stats)@ == if spec_gap(old(state).last_input_ms, obs.now_ms) > DEBOUNCE_MS {
            bump_seq(old(input_stats)@, tick_labels(*old(state), *obs))
        } else {
            old(input_stats)@
        },
        final(state).last_input_ms == next_last_input(*old(state), *obs),
        final(state).mouse_x == obs.mouse_x && final(state).mouse_y == obs.mouse_y,
        final(activity)@ == if spec_should_credit(
            active_label(*obs),
            next_last_input(*old(state), *obs),
            obs.now_ms,
            config.long_set(),
        ) {
            old(activity)@.insert(
                active_label(*obs),
                spec_bump(old(activity)@, active_label(*obs), TICK_MS),
            )
        } else {
            old(activity)@
        },
        flush_due == (spec_gap(old(state).last_save_ms, obs.now_ms) > SAVE_INTERVAL_MS),
        final(state).last_save_ms == if flush_due {
            obs.now_ms
        } else {
            old(state).last_save_ms
        },
{
    let ghost state0 = *state;
    let gap: u64 = if obs.now_ms >= state.last_input_ms {
        obs.now_ms - state.last_input_ms
    } else {
        0
    };
    let debounce_ok = gap > DEBOUNCE_MS;

    let mut any_button = false;
    let mut bi: usize = 0;
    while bi < obs.buttons.len()
        invariant
            bi <= obs.buttons@.len(),
            any_button == exists|t: int| 0 <= t < bi && obs.buttons@[t],
        decreases obs.buttons@.len() - bi,
    {
        if obs.buttons[bi] {
            any_button = true;
        }
        bi += 1;
    }
    let moved = state.mouse_x != obs.mouse_x || state.mouse_y != obs.mouse_y;
    let any_key = obs.keys.len() > 0;

    if debounce_ok {
        let ghost m0 = input_stats@;
        bump_clicks(input_stats, &obs.buttons, 0);
        let ghost m1 = input_stats@;
        if moved {
            let label = move_label_string();
            input_stats.increment(&label, 1);
        }
        let ghost m2 = input_stats@;
        bump_keys(input_stats, &obs.keys, 0);
        proof {
            let clicks = click_labels_from(obs.buttons@, 0);
            let mv = if spec_moved(state0, *obs) {
                seq![move_label()]
            } else {
                Seq::<Seq<char>>::empty()
            };
            let keys = key_labels(obs.keys@);
            assert(m2 == bump_seq(m1, mv)) by {
                reveal_with_fuel(bump_seq, 3);
                if spec_moved(state0, *obs) {
                    assert(mv[0] == move_label());
                    assert(mv.drop_first() =~= Seq::<Seq<char>>::empty());
                }
            }
            assert(key_labels(obs.keys@).skip(0) =~= keys);
            lemma_bump_seq_concat(m0, clicks, mv);
            lemma_bump_seq_concat(m0, clicks + mv, keys);
            assert(input_stats@ == bump_seq(m0, (clicks + mv) + keys));
            assert((clicks + mv) + keys =~= tick_labels(state0, *obs));
        }
    }

    if any_button || moved || any_key {
        state.last_input_ms = obs.now_ms;
    }
    state.mouse_x = obs.mouse_x;
    state.mouse_y = obs.mouse_y;

    let fallback = String::new();
    let label: &String = match &obs.active_app {
        Some(s) => s,
        None => &fallback,
    };
    if should_credit(label, state.last_input_ms, obs.now_ms, config) {
        activity.increment(label, TICK_MS);
    }

    let flush_due = should_flush(state.last_save_ms, obs.now_ms);
    if flush_due {
        state.last_save_ms = obs.now_ms;
    }
    flush_due
}

} // verus!

//! Idle/attribution policy: decides, from the gap since the last user input,
//! whether the currently active application is still credited with elapsed
//! time, and when the periodic persistence flush is due.

use vstd::prelude::*;

verus! {

/// Idle gap (milliseconds) allowed for an ordinary application.
pub const SHORT_GAP_MS: u64 = 5_000;

/// Idle gap (milliseconds) allowed for an application configured for long
/// tracking.
pub const LONG_GAP_MS: u64 = 600_000;

/// Interval (milliseconds) between two periodic persistence flushes.
pub const SAVE_INTERVAL_MS: u64 = 5_000;

/// Debounce window (milliseconds): input events closer together than this are
/// counted once.
pub const DEBOUNCE_MS: u64 = 75;

/// Period (milliseconds) of one sampler tick.
pub const TICK_MS: u64 = 50;

/// The persisted settings: where snapshots go, and which applications get the
/// extended idle-gap allowance.
pub struct TrackingConfig {
    /// Destination directory for snapshot files; `None` means the tracker is
    /// not configured and must not touch real storage.
    pub output_directory: Option<String>,
    /// Labels of the applications with the extended idle-gap allowance.
    /// No label occurs twice.
    pub long_tracking: Vec<String>,
}

impl TrackingConfig {
    /// The set of long-tracking labels.
    pub open spec fn long_set(&self) -> Set<Seq<char>> {
        self.long_tracking@.map_values(|s: String| s@).to_set()
    }

    /// Labels are stored without repetition.
    pub open spec fn wf(&self) -> bool {
        forall|i: int, j: int|
            0 <= i < j < self.long_tracking@.len() ==> self.long_tracking@[i]@
                != self.long_tracking@[j]@
    }

    /// A fresh, unconfigured record: no output directory, no long-tracking
    /// applications.
    pub fn new() -> (r: TrackingConfig)
        ensures
            r.output_directory is None,
            r.long_set() == Set::<Seq<char>>::empty(),
            r.wf(),
    {
        let r = TrackingConfig { output_directory: None, long_tracking: Vec::new() };
        proof {
            assert(r.long_tracking@.map_values(|s: String| s@) =~= Seq::<Seq<char>>::empty());
            assert(r.long_set() =~= Set::<Seq<char>>::empty());
        }
        r
    }

    /// Whether `label` currently has the extended allowance.
    pub fn is_long_tracking(&self, label: &String) -> (r: bool)
        ensures
            r == self.long_set().contains(label@),
    {
        let mut i: usize = 0;
        while i < self.long_tracking.len()
            invariant
                0 <= i <= self.long_tracking@.len(),
                forall|j: int| 0 <= j < i ==> self.long_tracking@[j]@ != label@,
            decreases self.long_tracking@.len() - i,
        {
            if self.long_tracking[i].eq(label) {
                proof {
                    assert(self.long_tracking@.map_values(|s: String| s@)[i as int] == label@);
                    assert(self.long_set().contains(label@));
                }
                return true;
            }
            i += 1;
        }
        proof {
            let m = self.long_tracking@.map_values(|s: String| s@);
            assert(forall|j: int| 0 <= j < m.len() ==> m[j] != label@);
            assert(!m.to_set().contains(label@));
        }
        false
    }

    /// Toggles `label`'s long-tracking membership: inserts it when absent,
    /// removes it when present.
    pub fn toggle_long_tracking(&mut self, label: String)
        requires
            old(self).wf(),
        ensures
            final(self).wf(),
            final(self).output_directory == old(self).output_directory,
            old(self).long_set().contains(label@) ==> final(self).long_set() == old(
                self,
            ).long_set().remove(label@),
            !old(self).long_set().contains(label@) ==> final(self).long_set() == old(
                self,
            ).long_set().insert(label@),
    {
        let ghost old_set = old(self).long_set();
        let mut out: Vec<String> = Vec::new();
        let mut found = false;
        let mut i: usize = 0;
        while i < self.long_tracking.len()
            invariant
                0 <= i <= self.long_tracking@.len(),
                self.long_tracking@ == old(self).long_tracking@,
                self.output_directory == old(self).output_directory,
                old(self).wf(),
                found == exists|j: int|
                    0 <= j < i && self.long_tracking@[j]@ == label@,
                out@.map_values(|s: String| s@) =~= self.long_tracking@.subrange(
                    0,
                    i as int,
                ).map_values(|s: String| s@).filter(ne_label(label@)),
            decreases self.long_tracking@.len() - i,
        {
            let ghost pre = self.long_tracking@.subrange(0, i as int).map_values(
                |s: String| s@,
            );
            let cur = self.long_tracking[i].clone();
            if cur.eq(&label) {
                found = true;
            } else {
                out.push(cur);
            }
            proof {
                let post = self.long_tracking@.subrange(0, i + 1).map_values(|s: String| s@);
                assert(post =~= pre.push(self.long_tracking@[i as int]@));
                reveal_with_fuel(Seq::filter, 2);
                assert(post.drop_last() =~= pre);
                assert(post.filter(ne_label(label@)) =~= (if self.long_tracking@[i as int]@
                    == label@ {
                    pre.filter(ne_label(label@))
                } else {
                    pre.filter(ne_label(label@)).push(self.long_tracking@[i as int]@)
                }));
            }
            i += 1;
        }
        proof {
            assert(self.long_tracking@.subrange(0, self.long_tracking@.len() as int)
                =~= self.long_tracking@);
        }
        let ghost f = out@.map_values(|s: String| s@);
        if !found {
            out.push(label);
            proof {
                assert(out@.map_values(|s: String| s@) =~= f.push(label@));
            }
        }
        proof {
            let m = self.long_tracking@.map_values(|s: String| s@);
            let om = out@.map_values(|s: String| s@);
            if found {
                let j = choose|j: int|
                    0 <= j < self.long_tracking@.len() && self.long_tracking@[j]@ == label@;
                assert(m[j] == label@);
            }
            if exists|j: int| 0 <= j < m.len() && m[j] == label@ {
                let j = choose|j: int| 0 <= j < m.len() && m[j] == label@;
                assert(self.long_tracking@[j]@ == label@);
            }
            lemma_filter_toggle(m, label@, om, found);
            assert forall|i: int, j: int| 0 <= i < j < out@.len() implies out@[i]@
                != out@[j]@ by {
                assert(om[i] == out@[i]@);
                assert(om[j] == out@[j]@);
            }
        }
        self.long_tracking = out;
    }
}

/// Every element of `s.filter(p)` satisfies `p` and occurs in `s`.
proof fn lemma_filter_membership<A>(s: Seq<A>, p: spec_fn(A) -> bool)
    ensures
        forall|x: A| #[trigger] s.filter(p).contains(x) <==> s.contains(x) && p(x),
    decreases s.len(),
{
    reveal_with_fuel(Seq::filter, 2);
    if s.len() > 0 {
        lemma_filter_membership(s.drop_last(), p);
        assert forall|x: A| #[trigger] s.filter(p).contains(x) implies s.contains(x) && p(x) by {
            if s.drop_last().filter(p).contains(x) {
                let j = choose|j: int|
                    0 <= j < s.drop_last().len() && s.drop_last()[j] == x;
                assert(s[j] == x);
            } else {
                assert(x == s.last());
                assert(s[s.len() - 1] == x);
            }
        }
        assert forall|x: A| s.contains(x) && p(x) implies #[trigger] s.filter(p).contains(x) by {
            let j = choose|j: int| 0 <= j < s.len() && s[j] == x;
            if j < s.len() - 1 {
                assert(s.drop_last()[j] == x);
                assert(s.drop_last().contains(x));
            } else {
                assert(x == s.last());
            }
        }
    }
}

/// The predicate that keeps every label other than `x`.
spec fn ne_label(x: Seq<char>) -> spec_fn(Seq<char>) -> bool {
    |k: Seq<char>| k != x
}

/// Filtering a duplicate-free sequence leaves it duplicate-free.
proof fn lemma_filter_no_dup<A>(s: Seq<A>, p: spec_fn(A) -> bool)
    requires
        forall|i: int, j: int| 0 <= i < j < s.len() ==> s[i] != s[j],
    ensures
        forall|i: int, j: int|
            0 <= i < j < s.filter(p).len() ==> s.filter(p)[i] != s.filter(p)[j],
    decreases s.len(),
{
    reveal_with_fuel(Seq::filter, 2);
    if s.len() > 0 {
        let d = s.drop_last();
        lemma_filter_no_dup(d, p);
        lemma_filter_membership(d, p);
        let f = s.filter(p);
        let fd = d.filter(p);
        if p(s.last()) {
            assert(f == fd.push(s.last()));
            assert forall|i: int, j: int| 0 <= i < j < f.len() implies f[i] != f[j] by {
                if j == f.len() - 1 {
                    assert(f[i] == fd[i]);
                    assert(fd.contains(fd[i]));
                    assert(d.contains(fd[i]));
                    let k = choose|k: int| 0 <= k < d.len() && d[k] == fd[i];
                    assert(s[k] == fd[i]);
                    assert(s[k] != s.last());
                }
            }
        }
    }
}

/// Removing the occurrences of `x` from a duplicate-free sequence, or
/// appending `x` to it when absent, toggles `x`'s membership in the induced
/// set and keeps the sequence duplicate-free.
proof fn lemma_filter_toggle(s: Seq<Seq<char>>, x: Seq<char>, out: Seq<Seq<char>>, found: bool)
    requires
        forall|i: int, j: int| 0 <= i < j < s.len() ==> s[i] != s[j],
        found == exists|j: int| 0 <= j < s.len() && s[j] == x,
        found ==> out == s.filter(ne_label(x)),
        !found ==> out == s.filter(ne_label(x)).push(x),
    ensures
        forall|i: int, j: int| 0 <= i < j < out.len() ==> out[i] != out[j],
        found ==> out.to_set() == s.to_set().remove(x),
        !found ==> out.to_set() == s.to_set().insert(x),
{
    let p = ne_label(x);
    let f = s.filter(p);
    lemma_filter_membership(s, p);
    lemma_filter_no_dup(s, p);
    assert(forall|i: int, j: int| 0 <= i < j < f.len() ==> f[i] != f[j]);
    if found {
        assert(out.to_set() =~= s.to_set().remove(x)) by {
            assert forall|y: Seq<char>| out.to_set().contains(y) implies s.to_set().remove(
                x,
            ).contains(y) by {
                assert(s.contains(y) && y != x);
            }
            assert forall|y: Seq<char>| s.to_set().remove(x).contains(y) implies out.to_set()
                .contains(y) by {
                assert(s.contains(y) && y != x);
                assert(f.contains(y));
            }
        }
    } else {
        assert(!s.contains(x));
        assert(forall|i: int| 0 <= i < f.len() ==> f[i] != x);
        assert(forall|i: int, j: int| 0 <= i < j < out.len() ==> out[i] != out[j]) by {
            assert(forall|i: int| 0 <= i < out.len() - 1 ==> out[i] == f[i]);
            assert(out[out.len() - 1] == x);
        }
        assert(out.to_set() =~= s.to_set().insert(x)) by {
            assert forall|y: Seq<char>| out.to_set().contains(y) implies s.to_set().insert(
                x,
            ).contains(y) by {
                let j = choose|j: int| 0 <= j < out.len() && out[j] == y;
                if j < out.len() - 1 {
                    assert(f.contains(y));
                }
            }
            assert forall|y: Seq<char>| s.to_set().insert(x).contains(y) implies out.to_set()
                .contains(y) by {
                if y == x {
                    assert(out[out.len() - 1] == y);
                } else {
                    assert(s.contains(y));
                    assert(f.contains(y));
                    let j = choose|j: int| 0 <= j < f.len() && f[j] == y;
                    assert(out[j] == y);
                }
            }
        }
    }
}

/// The idle gap: how long ago the last input happened, zero when the clock
/// reads earlier than the recorded input.
pub open spec fn spec_gap(last_input: u64, now: u64) -> u64 {
    if now >= last_input {
        (now - last_input) as u64
    } else {
        0
    }
}

/// The idle-gap threshold that applies to `label` under `long_set`.
pub open spec fn spec_threshold(label: Seq<char>, long_set: Set<Seq<char>>) -> u64 {
    if long_set.contains(label) {
        LONG_GAP_MS
    } else {
        SHORT_GAP_MS
    }
}

/// Whether the active application is credited with elapsed time on this tick:
/// the idle gap must not exceed the threshold the configuration gives it.
pub open spec fn spec_should_credit(
    label: Seq<char>,
    last_input: u64,
    now: u64,
    long_set: Set<Seq<char>>,
) -> bool {
    spec_gap(last_input, now) <= spec_threshold(label, long_set)
}

/// Decides whether `active_app` is credited with this tick's elapsed time:
/// true exactly when the gap from `last_input` to `now` is within the
/// configured threshold (extended when `active_app` is long-tracking).
pub fn should_credit(
    active_app: &String,
    last_input: u64,
    now: u64,
    config: &TrackingConfig,
) -> (r: bool)
    ensures
        r == spec_should_credit(active_app@, last_input, now, config.long_set()),
{
    let gap: u64 = if now >= last_input {
        now - last_input
    } else {
        0
    };
    let threshold: u64 = if config.is_long_tracking(active_app) {
        LONG_GAP_MS
    } else {
        SHORT_GAP_MS
    };
    gap <= threshold
}

/// Decides whether the periodic flush is due: true exactly when strictly more
/// than the save interval has elapsed since the last flush.
pub fn should_flush(last_flush: u64, now: u64) -> (r: bool)
    ensures
        r == (spec_gap(last_flush, now) > SAVE_INTERVAL_MS),
{
    let gap: u64 = if now >= last_flush {
        now - last_flush
    } else {
        0
    };
    gap > SAVE_INTERVAL_MS
}

/// A gap within the short allowance is always credited, whatever the
/// long-tracking set holds.
pub proof fn lemma_credit_short_gap(
    label: Seq<char>,
    last_input: u64,
    now: u64,
    long_set: Set<Seq<char>>,
)
    requires
        spec_gap(last_input, now) <= SHORT_GAP_MS,
    ensures
        spec_should_credit(label, last_input, now, long_set),
{
}

/// A gap between the short and the long allowance is credited exactly when
/// the application is long-tracking.
pub proof fn lemma_credit_mid_gap(
    label: Seq<char>,
    last_input: u64,
    now: u64,
    long_set: Set<Seq<char>>,
)
    requires
        SHORT_GAP_MS < spec_gap(last_input, now) <= LONG_GAP_MS,
    ensures
        spec_should_credit(label, last_input, now, long_set) == long_set.contains(label),
{
}

/// A gap beyond the long allowance is never credited, long-tracking or not.
pub proof fn lemma_credit_long_gap(
    label: Seq<char>,
    last_input: u64,
    now: u64,
    long_set: Set<Seq<char>>,
)
    requires
        spec_gap(last_input, now) > LONG_GAP_MS,
    ensures
        !spec_should_credit(label, last_input, now, long_set),
{
}

/// A configuration edit is reflected at once: toggling a label's membership
/// flips the very next credit decision for any gap in the range where
/// membership decides.
pub proof fn lemma_toggle_reflected(
    label: Seq<char>,
    last_input: u64,
    now: u64,
    long_set: Set<Seq<char>>,
)
    requires
        SHORT_GAP_MS < spec_gap(last_input, now) <= LONG_GAP_MS,
    ensures
        !long_set.contains(label) ==> spec_should_credit(
            label,
            last_input,
            now,
            long_set.insert(label),
        ) && !spec_should_credit(label, last_input, now, long_set),
        long_set.contains(label) ==> !spec_should_credit(
            label,
            last_input,
            now,
            long_set.remove(label),
        ) && spec_should_credit(label, last_input, now, long_set),
{
}

} // verus!

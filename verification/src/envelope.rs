use vstd::prelude::*;

verus! {

/// Full scale of an amplitude: amplitudes are millionths of the loudest level.
pub const FULL_SCALE: u32 = 1_000_000;

/// Levels under this (a thousandth of full scale) are played as silence.
pub const SILENCE_THRESHOLD: u32 = 1_000;

/// An attack-decay-sustain-release envelope.
///
/// Times are picoseconds, amplitudes millionths of full scale. While a note
/// is held, its level rises linearly from zero to `attack_amplitude` over
/// `attack_time`, falls linearly to `sustain_amplitude` over `decay_time` and
/// stays there; once the note is let go, the level it had reached fades
/// linearly to zero over `release_time`, and then the note is over.
#[derive(Debug, Clone, Copy, PartialEq, Eq)]
pub struct EnvelopeADSR {
    pub attack_time: u64,
    pub attack_amplitude: u32,
    pub decay_time: u64,
    pub sustain_amplitude: u32,
    pub release_time: u64,
}

/// Level that is heard: under the silence threshold nothing is heard.
pub open spec fn gate(level: int) -> int {
    if level < SILENCE_THRESHOLD {
        0
    } else {
        level
    }
}

/// An optional amplitude of the library as a mathematical value.
pub open spec fn amplitude_view(a: Option<u32>) -> Option<int> {
    match a {
        Some(x) => Some(x as int),
        None => None,
    }
}

impl EnvelopeADSR {
    /// The louder of the two amplitudes the envelope is built from.
    pub open spec fn peak(self) -> int {
        if self.attack_amplitude >= self.sustain_amplitude {
            self.attack_amplitude as int
        } else {
            self.sustain_amplitude as int
        }
    }

    /// Level (before gating) of a held note `lifetime` picoseconds after it
    /// started: the attack ramp, the decay ramp, then the sustain level. A
    /// zero-length attack starts at the attack amplitude.
    pub open spec fn spec_held_level(self, lifetime: int) -> int {
        let a = self.attack_time as int;
        let d = self.decay_time as int;
        if lifetime <= a {
            if a == 0 {
                self.attack_amplitude as int
            } else {
                lifetime * self.attack_amplitude / a
            }
        } else if lifetime <= a + d {
            (self.attack_amplitude * (a + d - lifetime) + self.sustain_amplitude * (lifetime - a))
                / d
        } else {
            self.sustain_amplitude as int
        }
    }

    /// Heard level at `time` of a note started at `on` that is still held.
    pub open spec fn held_amplitude(self, time: int, on: int) -> int {
        if time < on {
            0
        } else {
            gate(self.spec_held_level(time - on))
        }
    }

    /// Heard level at `time` of a note started at `on` and, if `off` is given,
    /// let go at `off`; `None` once the release is over.
    pub open spec fn spec_amplitude_at(self, time: int, on: int, off: Option<int>) -> Option<int> {
        if time < on {
            Some(0)
        } else {
            match off {
                None => Some(self.held_amplitude(time, on)),
                Some(o) => if time < o {
                    Some(self.held_amplitude(time, on))
                } else if time - o < self.release_time {
                    let r = self.release_time as int;
                    Some(gate(self.held_amplitude(o, on) * (r - (time - o)) / r))
                } else {
                    None
                },
            }
        }
    }

    fn level_after(&self, lifetime: u64) -> (r: u64)
        ensures
            r as int == self.spec_held_level(lifetime as int),
            r <= self.peak(),
    {
        let a = self.attack_time;
        let d = self.decay_time;
        let amp_a = self.attack_amplitude;
        let amp_s = self.sustain_amplitude;
        if lifetime <= a {
            if a == 0 {
                return amp_a as u64;
            }
            proof {
                lemma_product_fits(lifetime as int, amp_a as int);
            }
            let num: u128 = (lifetime as u128) * (amp_a as u128);
            proof {
                lemma_scaled_ratio_bounded(lifetime as int, amp_a as int, a as int);
            }
            (num / (a as u128)) as u64
        } else if lifetime - a <= d {
            let x: u64 = lifetime - a;
            proof {
                lemma_product_fits((d - x) as int, amp_a as int);
                lemma_product_fits(x as int, amp_s as int);
                assert(amp_a * (d - x) == (d - x) * amp_a && amp_s * x == x * amp_s) by (nonlinear_arith);
            }
            let num: u128 = (amp_a as u128) * ((d - x) as u128) + (amp_s as u128) * (x as u128);
            proof {
                lemma_interpolation_bounded(amp_a as int, amp_s as int, x as int, d as int, self.peak());
            }
            (num / (d as u128)) as u64
        } else {
            amp_s as u64
        }
    }

    /// Heard level of the envelope at `time` for a note that started at
    /// `on_time` and, if `off_time` is given, was let go then. `None` means
    /// the note has finished and can be dropped.
    pub fn amplitude_at(&self, time: u64, on_time: u64, off_time: Option<u64>) -> (r: Option<u32>)
        ensures
            amplitude_view(r) == self.spec_amplitude_at(time as int, on_time as int, match off_time {
                Some(o) => Some(o as int),
                None => None,
            }),
    {
        if time < on_time {
            return Some(0);
        }
        let held = match off_time {
            None => true,
            Some(o) => time < o,
        };
        let level: u64 = if held {
            self.level_after(time - on_time)
        } else {
            let o = match off_time {
                Some(o) => o,
                None => 0,
            };
            let dead: u64 = time - o;
            if dead < self.release_time {
                let at_off: u64 = if o < on_time {
                    0
                } else {
                    let l = self.level_after(o - on_time);
                    if l < SILENCE_THRESHOLD as u64 {
                        0
                    } else {
                        l
                    }
                };
                let r = self.release_time;
                proof {
                    lemma_product_fits((r - dead) as int, at_off as int);
                }
                let num: u128 = (at_off as u128) * ((r - dead) as u128);
                proof {
                    lemma_scaled_ratio_bounded((r - dead) as int, at_off as int, r as int);
                    assert(num == (r - dead) * at_off) by (nonlinear_arith)
                        requires
                            num == at_off * (r - dead),
                    ;
                }
                (num / (r as u128)) as u64
            } else {
                return None;
            }
        };
        Some(
            if level < SILENCE_THRESHOLD as u64 {
                0
            } else {
                level as u32
            },
        )
    }
}

/// A held note's level never goes below zero or above the louder of the
/// attack and sustain amplitudes.
pub proof fn lemma_held_level_bounded(env: EnvelopeADSR, lifetime: int)
    requires
        0 <= lifetime,
    ensures
        0 <= env.spec_held_level(lifetime) <= env.peak(),
{
    let a = env.attack_time as int;
    let d = env.decay_time as int;
    if lifetime <= a {
        if a > 0 {
            lemma_scaled_ratio_bounded(lifetime, env.attack_amplitude as int, a);
        }
    } else if lifetime <= a + d {
        lemma_interpolation_bounded(
            env.attack_amplitude as int,
            env.sustain_amplitude as int,
            lifetime - a,
            d,
            env.peak(),
        );
        assert(env.attack_amplitude * (a + d - lifetime) == env.attack_amplitude * (d - (lifetime
            - a)));
    }
}

/// Whatever the times, the envelope's level lies between zero and the louder
/// of its attack and sustain amplitudes.
pub proof fn lemma_amplitude_bounded(env: EnvelopeADSR, time: int, on: int, off: Option<int>)
    ensures
        env.spec_amplitude_at(time, on, off) matches Some(level) ==> 0 <= level <= env.peak(),
{
    if time >= on {
        lemma_held_level_bounded(env, time - on);
    }
    if let Some(o) = off {
        if o >= on {
            lemma_held_level_bounded(env, o - on);
        }
        if time >= on && time >= o && time - o < env.release_time {
            let r = env.release_time as int;
            lemma_scaled_ratio_bounded(r - (time - o), env.held_amplitude(o, on), r);
            assert(env.held_amplitude(o, on) * (r - (time - o)) == (r - (time - o))
                * env.held_amplitude(o, on)) by (nonlinear_arith);
        }
    }
}

/// Before a note starts it is silent, and it has not finished.
pub proof fn lemma_silent_before_onset(env: EnvelopeADSR, time: int, on: int, off: Option<int>)
    requires
        time < on,
    ensures
        env.spec_amplitude_at(time, on, off) == Some(0int),
{
}

/// A note that is still held never finishes.
pub proof fn lemma_held_note_never_finishes(env: EnvelopeADSR, time: int, on: int)
    ensures
        env.spec_amplitude_at(time, on, None) is Some,
{
}

/// Once a started note has been let go for at least the release time, it has
/// finished.
pub proof fn lemma_finished_after_release(env: EnvelopeADSR, time: int, on: int, off: int)
    requires
        on <= time,
        off + env.release_time <= time,
    ensures
        env.spec_amplitude_at(time, on, Some(off)) is None,
{
}

/// A finished note stays finished at every later time.
pub proof fn lemma_finished_stays_finished(
    env: EnvelopeADSR,
    t1: int,
    t2: int,
    on: int,
    off: Option<int>,
)
    requires
        t1 <= t2,
        env.spec_amplitude_at(t1, on, off) is None,
    ensures
        env.spec_amplitude_at(t2, on, off) is None,
{
}

/// Letting a note go causes no jump: at the moment of release the level is
/// the one the held note had reached.
pub proof fn lemma_release_starts_where_held(env: EnvelopeADSR, on: int, off: int)
    requires
        on <= off,
        env.release_time > 0,
    ensures
        env.spec_amplitude_at(off, on, Some(off)) == Some(env.held_amplitude(off, on)),
{
    let r = env.release_time as int;
    let h = env.held_amplitude(off, on);
    assert(h * (r - 0) / r == h) by {
        vstd::arithmetic::div_mod::lemma_div_multiples_vanish(h, r);
        assert(h * r == r * h) by (nonlinear_arith);
    }
    lemma_held_level_bounded(env, off - on);
}

/// During the release a note only gets quieter.
pub proof fn lemma_release_fades(env: EnvelopeADSR, on: int, off: int, t1: int, t2: int)
    requires
        on <= t1,
        off <= t1 <= t2,
        env.spec_amplitude_at(t2, on, Some(off)) is Some,
    ensures
        env.spec_amplitude_at(t1, on, Some(off)) is Some,
        env.spec_amplitude_at(t2, on, Some(off)).unwrap() <= env.spec_amplitude_at(
            t1,
            on,
            Some(off),
        ).unwrap(),
{
    let r = env.release_time as int;
    let h = env.held_amplitude(off, on);
    if off >= on {
        lemma_held_level_bounded(env, off - on);
    }
    assert(0 <= h);
    let x1 = h * (r - (t1 - off));
    let x2 = h * (r - (t2 - off));
    assert(x2 <= x1) by (nonlinear_arith)
        requires
            0 <= h,
            t1 <= t2,
            x1 == h * (r - (t1 - off)),
            x2 == h * (r - (t2 - off)),
    ;
    vstd::arithmetic::div_mod::lemma_div_is_ordered(x2, x1, r);
}

proof fn lemma_product_fits(x: int, amp: int)
    requires
        0 <= x <= u64::MAX,
        0 <= amp <= u64::MAX,
    ensures
        0 <= x * amp <= 0xffff_ffff_ffff_ffff_ffff_ffff_ffff_ffff,
        amp <= u32::MAX ==> x * amp <= 0xffff_fffe_ffff_ffff_0000_0001,
{
    assert(0 <= x * amp <= u64::MAX * u64::MAX) by (nonlinear_arith)
        requires
            0 <= x <= u64::MAX,
            0 <= amp <= u64::MAX,
    ;
    assert(amp <= u32::MAX ==> x * amp <= u64::MAX * u32::MAX) by (nonlinear_arith)
        requires
            0 <= x <= u64::MAX,
            0 <= amp <= u64::MAX,
    ;
}

proof fn lemma_scaled_ratio_bounded(x: int, amp: int, den: int)
    requires
        0 <= x <= den,
        0 < den,
        0 <= amp,
    ensures
        0 <= x * amp / den <= amp,
{
    assert(0 <= x * amp <= den * amp) by (nonlinear_arith)
        requires
            0 <= x <= den,
            0 <= amp,
    ;
    vstd::arithmetic::div_mod::lemma_div_is_ordered(x * amp, den * amp, den);
    vstd::arithmetic::div_mod::lemma_div_multiples_vanish(amp, den);
    vstd::arithmetic::div_mod::lemma_div_pos_is_pos(x * amp, den);
}

proof fn lemma_interpolation_bounded(amp_a: int, amp_s: int, x: int, d: int, m: int)
    requires
        0 <= amp_a <= m,
        0 <= amp_s <= m,
        0 < x <= d,
    ensures
        0 <= (amp_a * (d - x) + amp_s * x) / d <= m,
{
    let num = amp_a * (d - x) + amp_s * x;
    assert(0 <= num <= d * m) by (nonlinear_arith)
        requires
            0 <= amp_a <= m,
            0 <= amp_s <= m,
            0 < x <= d,
            num == amp_a * (d - x) + amp_s * x,
    ;
    vstd::arithmetic::div_mod::lemma_div_is_ordered(num, d * m, d);
    vstd::arithmetic::div_mod::lemma_div_multiples_vanish(m, d);
    vstd::arithmetic::div_mod::lemma_div_pos_is_pos(num, d);
}

} // verus!

//! The ticks of the frequency and decibel rulers beside the spectrogram.

use vstd::prelude::*;

verus! {

/// At most one tick per 30 pixels of ruler, and never fewer than two.
pub open spec fn max_ticks(length: nat) -> nat {
    if length / 30 > 2 {
        length / 30
    } else {
        2
    }
}

/// The decibel steps the ruler may use, smallest first.
pub open spec fn db_steps() -> Seq<nat> {
    seq![5, 10, 20, 30, 40, 60, 120]
}

/// The frequency steps (in Hz) the ruler may use, smallest first.
pub open spec fn freq_steps() -> Seq<nat> {
    seq![100, 200, 500, 1000, 2000, 5000, 10000, 20000, 50000]
}

/// The first step of `steps` that makes at most `ticks` ticks over `range`
/// (that is, `step * ticks >= range`), or `fallback` when none does.
pub open spec fn first_fitting_step(steps: Seq<nat>, ticks: nat, range: nat, fallback: nat) -> nat
    decreases steps.len(),
{
    if steps.len() == 0 {
        fallback
    } else if steps[0] * ticks >= range {
        steps[0]
    } else {
        first_fitting_step(steps.drop_first(), ticks, range, fallback)
    }
}

/// The step of the decibel ruler (which spans -120 dB to 0 dB) on a ruler
/// `height` pixels long.
pub open spec fn db_step(height: nat) -> nat {
    first_fitting_step(db_steps(), max_ticks(height), 120, 120)
}

/// The step of the frequency ruler, which spans 0 Hz to half the sample rate,
/// on a ruler `height` pixels long.  Half the sample rate is compared as
/// `2 * step * ticks >= sample_rate`.
pub open spec fn freq_step(sample_rate: nat, height: nat) -> nat {
    first_fitting_step(freq_steps(), 2 * max_ticks(height), sample_rate, 20000)
}

/// The frequency step is the first of 100, 200, 500, 1000, 2000, 5000,
/// 10000, 20000, 50000 Hz whose multiple by twice the tick count (at most one
/// tick per 30 pixels, at least two) reaches the sample rate, and 20000 Hz
/// when none does.
pub proof fn lemma_freq_step_choice(sample_rate: nat, height: nat)
    ensures
        ({
            let n2 = 2 * (if height / 30 > 2 { height / 30 } else { 2 });
            let steps = seq![100nat, 200, 500, 1000, 2000, 5000, 10000, 20000, 50000];
            &&& forall|j: int|
                0 <= j < steps.len() && #[trigger] steps[j] * n2 >= sample_rate && (forall|k: int|
                    0 <= k < j ==> steps[k] * n2 < sample_rate) ==> freq_step(sample_rate, height)
                    == steps[j]
            &&& (forall|k: int| 0 <= k < steps.len() ==> steps[k] * n2 < sample_rate)
                ==> freq_step(sample_rate, height) == 20000
        }),
{
    reveal_with_fuel(first_fitting_step, 10);
    let n2 = 2 * max_ticks(height);
    let steps = seq![100nat, 200, 500, 1000, 2000, 5000, 10000, 20000, 50000];
    assert(freq_steps() == steps);
    let s1 = steps.drop_first();
    let s2 = s1.drop_first();
    let s3 = s2.drop_first();
    let s4 = s3.drop_first();
    let s5 = s4.drop_first();
    let s6 = s5.drop_first();
    let s7 = s6.drop_first();
    let s8 = s7.drop_first();
    let s9 = s8.drop_first();
    assert(s1 =~= seq![200nat, 500, 1000, 2000, 5000, 10000, 20000, 50000]);
    assert(s2 =~= seq![500nat, 1000, 2000, 5000, 10000, 20000, 50000]);
    assert(s3 =~= seq![1000nat, 2000, 5000, 10000, 20000, 50000]);
    assert(s4 =~= seq![2000nat, 5000, 10000, 20000, 50000]);
    assert(s5 =~= seq![5000nat, 10000, 20000, 50000]);
    assert(s6 =~= seq![10000nat, 20000, 50000]);
    assert(s7 =~= seq![20000nat, 50000]);
    assert(s8 =~= seq![50000nat]);
    assert(s9 =~= Seq::<nat>::empty());
    assert forall|j: int|
        0 <= j < steps.len() && #[trigger] steps[j] * n2 >= sample_rate && (forall|k: int|
            0 <= k < j ==> steps[k] * n2 < sample_rate) implies freq_step(sample_rate, height)
        == steps[j] by {
        if j > 0 { assert(steps[0] * n2 < sample_rate); }
        if j > 1 { assert(steps[1] * n2 < sample_rate); }
        if j > 2 { assert(steps[2] * n2 < sample_rate); }
        if j > 3 { assert(steps[3] * n2 < sample_rate); }
        if j > 4 { assert(steps[4] * n2 < sample_rate); }
        if j > 5 { assert(steps[5] * n2 < sample_rate); }
        if j > 6 { assert(steps[6] * n2 < sample_rate); }
        if j > 7 { assert(steps[7] * n2 < sample_rate); }
    }
    if forall|k: int| 0 <= k < steps.len() ==> steps[k] * n2 < sample_rate {
        assert(steps[0] * n2 < sample_rate);
        assert(steps[1] * n2 < sample_rate);
        assert(steps[2] * n2 < sample_rate);
        assert(steps[3] * n2 < sample_rate);
        assert(steps[4] * n2 < sample_rate);
        assert(steps[5] * n2 < sample_rate);
        assert(steps[6] * n2 < sample_rate);
        assert(steps[7] * n2 < sample_rate);
        assert(steps[8] * n2 < sample_rate);
    }
}

/// The decibel step is the first of 5, 10, 20, 30, 40, 60, 120 dB whose
/// multiple by the tick count (at most one tick per 30 pixels, at least two)
/// reaches the 120 dB the ruler spans.
pub proof fn lemma_db_step_choice(height: nat)
    ensures
        ({
            let n = if height / 30 > 2 { height / 30 } else { 2 };
            let steps = seq![5nat, 10, 20, 30, 40, 60, 120];
            forall|j: int|
                0 <= j < steps.len() && #[trigger] steps[j] * n >= 120 && (forall|k: int|
                    0 <= k < j ==> steps[k] * n < 120) ==> db_step(height) == steps[j]
        }),
{
    reveal_with_fuel(first_fitting_step, 8);
    let n = max_ticks(height);
    let steps = seq![5nat, 10, 20, 30, 40, 60, 120];
    assert(db_steps() == steps);
    let s1 = steps.drop_first();
    let s2 = s1.drop_first();
    let s3 = s2.drop_first();
    let s4 = s3.drop_first();
    let s5 = s4.drop_first();
    let s6 = s5.drop_first();
    assert(s1 =~= seq![10nat, 20, 30, 40, 60, 120]);
    assert(s2 =~= seq![20nat, 30, 40, 60, 120]);
    assert(s3 =~= seq![30nat, 40, 60, 120]);
    assert(s4 =~= seq![40nat, 60, 120]);
    assert(s5 =~= seq![60nat, 120]);
    assert(s6 =~= seq![120nat]);
    assert forall|j: int|
        0 <= j < steps.len() && #[trigger] steps[j] * n >= 120 && (forall|k: int|
            0 <= k < j ==> steps[k] * n < 120) implies db_step(height) == steps[j] by {
        if j > 0 { assert(steps[0] * n < 120); }
        if j > 1 { assert(steps[1] * n < 120); }
        if j > 2 { assert(steps[2] * n < 120); }
        if j > 3 { assert(steps[3] * n < 120); }
        if j > 4 { assert(steps[4] * n < 120); }
        if j > 5 { assert(steps[5] * n < 120); }
    }
}

fn max_ticks_exec(length: usize) -> (n: usize)
    ensures
        n == max_ticks(length as nat),
{
    let n = length / 30;
    if n > 2 {
        n
    } else {
        2
    }
}

fn first_fitting_step_exec(steps: &Vec<u64>, ticks: u64, range: u64, fallback: u64) -> (s: u64)
    requires
        forall|k: int| 0 <= k < steps@.len() ==> #[trigger] steps@[k] <= 50000,
    ensures
        s == first_fitting_step(steps@.map_values(|x: u64| x as nat), ticks as nat, range as nat, fallback as nat),
{
    let ghost all = steps@.map_values(|x: u64| x as nat);
    assert(all.skip(0) =~= all);
    let mut k: usize = 0;
    while k < steps.len()
        invariant
            k <= steps@.len(),
            all == steps@.map_values(|x: u64| x as nat),
            forall|m: int| 0 <= m < steps@.len() ==> #[trigger] steps@[m] <= 50000,
            first_fitting_step(all, ticks as nat, range as nat, fallback as nat)
                == first_fitting_step(all.skip(k as int), ticks as nat, range as nat, fallback as nat),
        decreases steps@.len() - k,
    {
        let step = steps[k];
        assert(all.skip(k as int)[0] == step as nat);
        assert(all.skip(k as int).drop_first() =~= all.skip(k + 1));
        assert((step as u128) * (ticks as u128) <= 50000 * 0xffff_ffff_ffff_ffff) by (nonlinear_arith)
            requires
                step <= 50000,
                ticks <= 0xffff_ffff_ffff_ffff,
        ;
        if (step as u128) * (ticks as u128) >= range as u128 {
            return step;
        }
        k = k + 1;
    }
    assert(all.skip(k as int) =~= Seq::<nat>::empty());
    fallback
}

/// The decibel ticks of a ruler `height` pixels long: from -120 dB up to
/// 0 dB in steps of `db_step(height)`.
pub fn db_ticks(height: usize) -> (ticks: Vec<i32>)
    ensures
        ticks@.len() == 120nat / db_step(height as nat) + 1,
        forall|k: int| 0 <= k < ticks@.len() ==> #[trigger] ticks@[k] == -120 + k * db_step(height as nat),
{
    let steps: Vec<u64> = vec![5, 10, 20, 30, 40, 60, 120];
    assert(steps@.map_values(|x: u64| x as nat) =~= db_steps());
    let n = max_ticks_exec(height) as u64;
    let step = first_fitting_step_exec(&steps, n, 120, 120);
    let ghost st = db_step(height as nat);
    assert(st == 5 || st == 10 || st == 20 || st == 30 || st == 40 || st == 60 || st == 120) by {
        reveal_with_fuel(first_fitting_step, 8);
    }
    let step = step as i32;
    let mut ticks: Vec<i32> = Vec::new();
    let mut current: i32 = -120;
    while current <= 0
        invariant
            step == st,
            st == 5 || st == 10 || st == 20 || st == 30 || st == 40 || st == 60 || st == 120,
            current == -120 + ticks@.len() * st,
            ticks@.len() * st <= 120 + st,
            forall|k: int| 0 <= k < ticks@.len() ==> #[trigger] ticks@[k] == -120 + k * st,
        decreases 0 - current + 120,
    {
        assert((ticks@.len() + 1) * st == ticks@.len() * st + st) by (nonlinear_arith);
        ticks.push(current);
        current = current + step;
    }
    proof {
        let n = ticks@.len();
        if st == 5 {
            assert(n == 25);
        } else if st == 10 {
            assert(n == 13);
        } else if st == 20 {
            assert(n == 7);
        } else if st == 30 {
            assert(n == 5);
        } else if st == 40 {
            assert(n == 4);
        } else if st == 60 {
            assert(n == 3);
        } else {
            assert(n == 2);
        }
    }
    ticks
}

/// The frequency ticks (in Hz) of a ruler `height` pixels long for a track
/// sampled at `sample_rate`: every multiple of `freq_step` that stays more
/// than seven tenths of a step below half the sample rate (the ruler then
/// ends with a tick at half the sample rate itself).
pub fn freq_ticks(sample_rate: u32, height: usize) -> (ticks: Vec<u32>)
    ensures
        forall|k: int| 0 <= k < ticks@.len() ==> #[trigger] ticks@[k] == k * freq_step(sample_rate as nat, height as nat),
        forall|k: int| 0 <= k < ticks@.len() ==> 10 * (#[trigger] ticks@[k]) + 7 * freq_step(sample_rate as nat, height as nat) <= 5 * sample_rate,
        10 * ticks@.len() * freq_step(sample_rate as nat, height as nat) + 7 * freq_step(sample_rate as nat, height as nat) > 5 * sample_rate,
{
    let steps: Vec<u64> = vec![100, 200, 500, 1000, 2000, 5000, 10000, 20000, 50000];
    assert(steps@.map_values(|x: u64| x as nat) =~= freq_steps());
    let n = max_ticks_exec(height) as u64;
    assert(n <= 0x7fff_ffff_ffff_ffff) by {
        assert(height / 30 <= 0x7fff_ffff_ffff_ffff);
    }
    let step = first_fitting_step_exec(&steps, 2 * n, sample_rate as u64, 20000);
    let ghost st = freq_step(sample_rate as nat, height as nat);
    assert(st == 100 || st == 200 || st == 500 || st == 1000 || st == 2000 || st == 5000 || st
        == 10000 || st == 20000 || st == 50000) by {
        reveal_with_fuel(first_fitting_step, 10);
    }
    let limit = 5 * (sample_rate as u64);
    let mut ticks: Vec<u32> = Vec::new();
    let mut current: u64 = 0;
    while 10 * current + 7 * step <= limit
        invariant
            step == st,
            st >= 100 && st <= 50000,
            limit == 5 * sample_rate,
            current == ticks@.len() * st,
            10 * current <= limit + 10 * st,
            forall|k: int| 0 <= k < ticks@.len() ==> #[trigger] ticks@[k] == k * st,
            forall|k: int| 0 <= k < ticks@.len() ==> 10 * (#[trigger] ticks@[k]) + 7 * st <= limit,
        decreases limit + 10 * st - 10 * current,
    {
        assert((ticks@.len() + 1) * st == ticks@.len() * st + st) by (nonlinear_arith);
        ticks.push(current as u32);
        current = current + step;
    }
    assert(10 * ticks@.len() * st == 10 * (ticks@.len() * st)) by (nonlinear_arith);
    ticks
}

} // verus!

use vstd::prelude::*;

verus! {

/// Frequency in Hz of the semitone `k` (0..12) above the reference C4,
/// that is `261.63 * 1.0594630943^k` rounded to the nearest integer.
pub open spec fn semitone_hz(k: int) -> nat {
    seq![262nat, 277, 294, 311, 330, 349, 370, 392, 415, 440, 466, 494][k]
}

/// `x` shifted right `k` times: `x / 2^k`, rounded down.
pub open spec fn halved(x: nat, k: nat) -> nat
    decreases k,
{
    if k == 0 {
        x
    } else {
        halved(x / 2, (k - 1) as nat)
    }
}

/// The frequency of a pitch: its semitone's frequency halved once for
/// every twelve steps, so that octaves descend as the pitch grows.
pub open spec fn frequency_of(pitch: nat) -> nat {
    halved(semitone_hz((pitch % 12) as int), pitch / 12)
}

proof fn lemma_halved_zero(k: nat)
    ensures
        halved(0, k) == 0,
    decreases k,
{
    if k > 0 {
        lemma_halved_zero((k - 1) as nat);
    }
}

fn semitone_frequency(k: usize) -> (r: usize)
    requires
        k < 12,
    ensures
        r == semitone_hz(k as int),
{
    let table: [usize; 12] = [262, 277, 294, 311, 330, 349, 370, 392, 415, 440, 466, 494];
    proof {
        assert(table@ =~= seq![262usize, 277, 294, 311, 330, 349, 370, 392, 415, 440, 466, 494]);
    }
    table[k]
}

/// Frequency in Hz of a note `pitch` semitones from C4: the semitone
/// `pitch % 12`, shifted right by `pitch / 12` octaves.
pub fn pitch_to_frequency(pitch: usize) -> (r: usize)
    ensures
        r == frequency_of(pitch as nat),
{
    let mut f = semitone_frequency(pitch % 12);
    let octaves = pitch / 12;
    let mut k: usize = 0;
    while k < octaves && f > 0
        invariant
            k <= octaves,
            octaves == pitch / 12,
            halved(f as nat, (octaves - k) as nat) == frequency_of(pitch as nat),
        decreases octaves - k,
    {
        assert(halved(f as nat, (octaves - k) as nat) == halved((f / 2) as nat, (octaves - k
            - 1) as nat));
        f = f / 2;
        k += 1;
    }
    proof {
        if f == 0 {
            lemma_halved_zero((octaves - k) as nat);
        }
    }
    f
}

} // verus!

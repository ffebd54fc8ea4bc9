//! The stars: each LED has a state that counts up from 1 while its star is lit, and is 0 while it
//! is dark.
use crate::sky::{DAWN, NOON, NUM_LEDS};
use vstd::prelude::*;

verus! {

/// The state in which a star is brightest, and its brightness there.
pub const PEAK: u8 = 128;

/// The states of the stars.
#[derive(Clone, Copy, Debug)]
pub struct StarField {
    pub state: [u8; NUM_LEDS],
}

/// No star shows on the LEDs between dawn and noon.
pub open spec fn is_blocked(i: int) -> bool {
    DAWN < i < NOON
}

/// How bright a star in state `v` is at LED `i`: as bright as its state up to [`PEAK`]; past that
/// it goes back toward zero, 129 showing as 127 and 255 as 1.
pub open spec fn glow(v: u8, i: int) -> int {
    if is_blocked(i) {
        0
    } else if v <= PEAK {
        v as int
    } else {
        256 - v
    }
}

/// The state that a frame leaves: a blocked star goes out, and so does one at the end of its life
/// once it has been shown.
pub open spec fn settled(v: u8, i: int) -> u8 {
    if is_blocked(i) || v == 255 {
        0
    } else {
        v
    }
}

/// The state after the pause between two frames: a lit star counts on, and a dark one begins if
/// it is ignited.
pub open spec fn grown(v: u8, ignite: bool) -> int {
    if v == 0 {
        if ignite {
            1
        } else {
            0
        }
    } else if v == 255 {
        1
    } else {
        v + 1
    }
}

impl StarField {
    /// A field in which the stars with a value are lit, in the state that it gives.
    pub fn new(lit: &[Option<u8>; NUM_LEDS]) -> (field: Self)
        ensures
            forall|i: int|
                0 <= i < NUM_LEDS ==> #[trigger] field.state[i] == match lit[i] {
                    Some(brightness) => brightness,
                    None => 0u8,
                },
    {
        let mut state: [u8; NUM_LEDS] = [0u8;NUM_LEDS];
        let mut i: usize = 0;
        while i < NUM_LEDS
            invariant
                i <= NUM_LEDS,
                forall|j: int|
                    0 <= j < i ==> #[trigger] state[j] == match lit[j] {
                        Some(brightness) => brightness,
                        None => 0u8,
                    },
                forall|j: int| i <= j < NUM_LEDS ==> #[trigger] state[j] == 0,
            decreases NUM_LEDS - i,
        {
            if let Some(brightness) = lit[i] {
                state[i] = brightness;
            }
            i = i + 1;
        }
        StarField { state }
    }

    /// The brightness of each star in the next frame.
    pub fn twinkle(&mut self) -> (twinkle_data: [u8; NUM_LEDS])
        ensures
            forall|i: int|
                0 <= i < NUM_LEDS ==> #[trigger] twinkle_data[i] == glow(old(self).state[i], i),
            forall|i: int|
                0 <= i < NUM_LEDS ==> #[trigger] final(self).state[i] == settled(
                    old(self).state[i],
                    i,
                ),
    {
        let mut twinkle_data: [u8; NUM_LEDS] = [0u8;NUM_LEDS];
        let mut i: usize = 0;
        while i < NUM_LEDS
            invariant
                i <= NUM_LEDS,
                forall|j: int|
                    0 <= j < i ==> #[trigger] twinkle_data[j] == glow(old(self).state[j], j),
                forall|j: int|
                    0 <= j < i ==> #[trigger] self.state[j] == settled(old(self).state[j], j),
                forall|j: int|
                    i <= j < NUM_LEDS ==> #[trigger] self.state[j] == old(self).state[j],
                forall|j: int| i <= j < NUM_LEDS ==> #[trigger] twinkle_data[j] == 0,
            decreases NUM_LEDS - i,
        {
            let v: u8 = self.state[i];
            if i > DAWN && i < NOON {
                self.state[i] = 0;
            } else {
                twinkle_data[i] = if v > PEAK {
                    255 - v + 1
                } else {
                    v
                };
                if v == 255 {
                    self.state[i] = 0;
                }
            }
            i = i + 1;
        }
        twinkle_data
    }

    /// Whether the star at an LED is dark, so that it can be ignited.
    pub fn is_dark(&self, i: usize) -> (dark: bool)
        requires
            i < NUM_LEDS,
        ensures
            dark == (self.state[i as int] == 0),
    {
        self.state[i] == 0
    }

    /// Moves each star on, and lights the dark ones that are ignited.
    pub fn advance(&mut self, ignite: &[bool; NUM_LEDS])
        ensures
            forall|i: int|
                0 <= i < NUM_LEDS ==> #[trigger] final(self).state[i] == grown(
                    old(self).state[i],
                    ignite[i],
                ),
    {
        let mut i: usize = 0;
        while i < NUM_LEDS
            invariant
                i <= NUM_LEDS,
                forall|j: int|
                    0 <= j < i ==> #[trigger] self.state[j] == grown(
                        old(self).state[j],
                        ignite[j],
                    ),
                forall|j: int|
                    i <= j < NUM_LEDS ==> #[trigger] self.state[j] == old(self).state[j],
            decreases NUM_LEDS - i,
        {
            let v: u8 = self.state[i];
            if v == 0 {
                if ignite[i] {
                    self.state[i] = 1;
                }
            } else if v == 255 {
                self.state[i] = 1;
            } else {
                self.state[i] = v + 1;
            }
            i = i + 1;
        }
    }
}

/// The state of a star after rounds of a frame and a pause, one for each draw that says whether
/// the star is ignited in the pause.
pub open spec fn after_rounds(v: u8, i: int, draws: Seq<bool>) -> u8
    decreases draws.len(),
{
    if draws.len() == 0 {
        v
    } else {
        grown(settled(after_rounds(v, i, draws.drop_last()), i), draws.last()) as u8
    }
}

/// A lit star that nothing blocks counts up by one with each round, up to 255, whatever is drawn;
/// in the round after that it goes out, and only the draw of that round can light it again.
pub proof fn law_star_life(v: u8, i: int, draws: Seq<bool>)
    requires
        !is_blocked(i),
        v > 0,
        v + draws.len() <= 256,
    ensures
        after_rounds(v, i, draws) == if v + draws.len() <= 255 {
            v + draws.len()
        } else if draws.last() {
            1
        } else {
            0
        },
    decreases draws.len(),
{
    if draws.len() > 0 {
        law_star_life(v, i, draws.drop_last());
    }
}

/// A dark star stays dark for as long as it is not ignited.
pub proof fn law_dark_star_waits(i: int, draws: Seq<bool>)
    requires
        forall|k: int| 0 <= k < draws.len() ==> !#[trigger] draws[k],
    ensures
        after_rounds(0, i, draws) == 0,
    decreases draws.len(),
{
    if draws.len() > 0 {
        assert forall|k: int| 0 <= k < draws.len() - 1 implies !#[trigger] draws.drop_last()[k] by {
            assert(!draws[k]);
        }
        law_dark_star_waits(i, draws.drop_last());
        assert(!draws[draws.len() - 1]);
    }
}

/// A blocked star never gets past the state in which it is ignited, and never shows.
pub proof fn law_blocked_star_is_dark(v: u8, i: int, draws: Seq<bool>)
    requires
        is_blocked(i),
        draws.len() > 0,
    ensures
        after_rounds(v, i, draws) == if draws.last() {
            1u8
        } else {
            0u8
        },
        glow(v, i) == 0,
        glow(after_rounds(v, i, draws), i) == 0,
{
}

/// A star rises and fades alike: it is as bright as many steps before its end as it is after its
/// beginning.
pub proof fn law_glow_is_symmetric(v: u8, i: int)
    requires
        v > 0,
    ensures
        glow(v, i) == glow((256 - v) as u8, i),
{
}

/// A star is never brighter than [`PEAK`], and shows exactly where it is lit and not blocked.
pub proof fn law_glow_range(v: u8, i: int)
    ensures
        0 <= glow(v, i) <= PEAK,
        glow(v, i) > 0 <==> v > 0 && !is_blocked(i),
{
}

/// A star is as bright as its state up to 128 and 256 less its state above that, except on LEDs 37
/// to 71, where none shows.
pub proof fn law_star_brightness(v: u8, i: int)
    ensures
        36 < i < 72 ==> glow(v, i) == 0,
        i <= 36 || i >= 72 ==> {
            &&& v <= 128 ==> glow(v, i) == v
            &&& v > 128 ==> glow(v, i) + v == 256
        },
{
}

/// From one state to the next a star changes by one step: up until state 128, then down. It does
/// not jump, and it is black just before its first state.
pub proof fn law_star_changes_gently(v: u8, i: int)
    requires
        v < 255,
        i <= 36 || i >= 72,
    ensures
        v < 128 ==> glow((v + 1) as u8, i) == glow(v, i) + 1,
        v >= 128 ==> glow((v + 1) as u8, i) == glow(v, i) - 1,
        glow(0, i) == 0,
        glow(255, i) == 1,
{
}

/// Two LEDs on which stars show, show the same star alike.
pub proof fn law_stars_are_alike(v: u8, i: int, j: int)
    requires
        i <= 36 || i >= 72,
        j <= 36 || j >= 72,
    ensures
        glow(v, i) == glow(v, j),
        settled(v, i) == settled(v, j),
{
}

/// A frame puts out the stars on LEDs 37 to 71 and those that have reached 255, and leaves the
/// others in the state that it showed.
pub proof fn law_frame_settles_stars(v: u8, i: int)
    ensures
        36 < i < 72 || v == 255 ==> settled(v, i) == 0,
        (i <= 36 || i >= 72) && v < 255 ==> settled(v, i) == v,
{
}

/// In a pause a dark star stays dark or is lit in its first state, as is drawn; a lit star goes
/// one state on, whatever is drawn, and from the last to the first.
pub proof fn law_pause_moves_stars_on(v: u8, ignite: bool)
    ensures
        v == 0 && ignite ==> grown(v, ignite) == 1,
        v == 0 && !ignite ==> grown(v, ignite) == 0,
        1 <= v < 255 ==> grown(v, ignite) - v == 1,
        v == 255 ==> grown(v, ignite) == 1,
{
}

/// A star that is lit in its first state shows each brightness from 1 to 128 and back to 1 in turn,
/// one for each round, whatever is drawn.
pub proof fn law_star_course(i: int, draws: Seq<bool>)
    requires
        i <= 36 || i >= 72,
        draws.len() <= 254,
    ensures
        after_rounds(1, i, draws) == 1 + draws.len(),
        glow(after_rounds(1, i, draws), i) == if draws.len() < 128 {
            (1 + draws.len()) as int
        } else {
            255 - draws.len()
        },
{
    law_star_life(1, i, draws);
}

} // verus!

//! Dome blackout: every mapped LED set to black, then one flush.

use vstd::prelude::*;

use crate::color::Rgb;
use crate::commands::DomeCommand;

verus! {

/// Black pixel commands for the LEDs `0..length` of one strut, in order.
pub open spec fn strut_blackout(strut_index: usize, length: usize) -> Seq<DomeCommand> {
    Seq::new(
        length as nat,
        |led: int|
            DomeCommand::Pixel {
                strut_index,
                led_index: led as usize,
                color: Rgb { r: 0, g: 0, b: 0 },
            },
    )
}

/// Black pixel commands for every LED of every mapped strut, strut by strut;
/// `strut_lengths[i]` is the LED count of strut `i`, `None` if it is unmapped.
pub open spec fn blackout_pixels(strut_lengths: Seq<Option<usize>>) -> Seq<DomeCommand>
    decreases strut_lengths.len(),
{
    if strut_lengths.len() == 0 {
        Seq::empty()
    } else {
        let rest = blackout_pixels(strut_lengths.drop_last());
        match strut_lengths.last() {
            Some(length) => rest + strut_blackout((strut_lengths.len() - 1) as usize, length),
            None => rest,
        }
    }
}

/// Black out every mapped dome LED using sparse pixel commands plus flush.
///
/// Matches Spectrum volume enable-wipe semantics and works on OPC paths that
/// only realize `current` pixels after `Flush` (unlike bare `Frame` commands).
/// `strut_lengths[i]` is the LED count of strut `i` in the dome topology, or
/// `None` where the strut is unmapped.
pub fn dome_blackout_commands(strut_lengths: &[Option<usize>]) -> (commands: Vec<DomeCommand>)
    ensures
        commands@ == blackout_pixels(strut_lengths@).push(DomeCommand::Flush),
        commands@.len() == mapped_led_count(strut_lengths@) + 1,
        commands@.last() == DomeCommand::Flush,
        forall|i: int, led: int|
            0 <= i < strut_lengths@.len() && (strut_lengths@[i] matches Some(length) && 0 <= led
                < length) ==> commands@.contains(#[trigger] black_pixel(i, led)),
        forall|k: int|
            0 <= k < commands@.len() - 1 ==> blacks_out_mapped_led(
                strut_lengths@,
                #[trigger] commands@[k],
            ),
{
    let mut commands: Vec<DomeCommand> = Vec::new();
    let mut strut_index: usize = 0;
    while strut_index < strut_lengths.len()
        invariant
            strut_index <= strut_lengths@.len(),
            commands@ == blackout_pixels(strut_lengths@.take(strut_index as int)),
        decreases strut_lengths@.len() - strut_index,
    {
        let ghost before = commands@;
        proof {
            assert(strut_lengths@.take(strut_index + 1).drop_last() =~= strut_lengths@.take(
                strut_index as int,
            ));
        }
        match strut_lengths[strut_index] {
            None => {},
            Some(length) => {
                let mut led_index: usize = 0;
                while led_index < length
                    invariant
                        led_index <= length,
                        commands@ == before + strut_blackout(strut_index, led_index),
                    decreases length - led_index,
                {
                    commands.push(
                        DomeCommand::Pixel { strut_index, led_index, color: Rgb::black() },
                    );
                    assert(commands@ =~= before + strut_blackout(strut_index, (led_index + 1) as usize));
                    led_index += 1;
                }
            },
        }
        strut_index += 1;
    }
    assert(strut_lengths@.take(strut_lengths@.len() as int) =~= strut_lengths@);
    let ghost pixels = commands@;
    commands.push(DomeCommand::Flush);
    proof {
        lemma_blackout_covers_every_led(strut_lengths@);
        assert forall|i: int, led: int|
            0 <= i < strut_lengths@.len() && (strut_lengths@[i] matches Some(length) && 0 <= led
                < length) implies commands@.contains(#[trigger] black_pixel(i, led)) by {
            let k = choose|k: int| 0 <= k < pixels.len() && pixels[k] == black_pixel(i, led);
            assert(commands@[k] == pixels[k]);
        }
        assert forall|k: int| 0 <= k < commands@.len() - 1 implies blacks_out_mapped_led(
            strut_lengths@,
            #[trigger] commands@[k],
        ) by {
            assert(commands@[k] == pixels[k]);
        }
    }
    commands
}

/// The number of LEDs on the mapped struts.
pub open spec fn mapped_led_count(strut_lengths: Seq<Option<usize>>) -> nat
    decreases strut_lengths.len(),
{
    if strut_lengths.len() == 0 {
        0
    } else {
        mapped_led_count(strut_lengths.drop_last()) + match strut_lengths.last() {
            Some(length) => length as nat,
            None => 0,
        }
    }
}

/// The command that sets LED `led` of strut `strut` to black.
pub open spec fn black_pixel(strut: int, led: int) -> DomeCommand {
    DomeCommand::Pixel {
        strut_index: strut as usize,
        led_index: led as usize,
        color: Rgb { r: 0, g: 0, b: 0 },
    }
}

/// `command` blacks out an LED that the strut map has.
pub open spec fn blacks_out_mapped_led(strut_lengths: Seq<Option<usize>>, command: DomeCommand) -> bool {
    match command {
        DomeCommand::Pixel { strut_index, led_index, color } => strut_index < strut_lengths.len()
            && (strut_lengths[strut_index as int] matches Some(length) && led_index < length)
            && color == (Rgb { r: 0, g: 0, b: 0 }),
        _ => false,
    }
}

/// A blackout covers the whole dome and nothing else: every LED of every
/// mapped strut gets a black pixel command, every pixel command blacks out
/// an LED of a mapped strut, and there are exactly as many pixel commands as
/// mapped LEDs (so each LED is set once).
pub proof fn lemma_blackout_covers_every_led(strut_lengths: Seq<Option<usize>>)
    requires
        strut_lengths.len() <= usize::MAX,
    ensures
        forall|i: int, led: int|
            0 <= i < strut_lengths.len() && (strut_lengths[i] matches Some(length) && 0 <= led
                < length) ==> blackout_pixels(strut_lengths).contains(
                #[trigger] black_pixel(i, led),
            ),
        forall|k: int|
            0 <= k < blackout_pixels(strut_lengths).len() ==> blacks_out_mapped_led(
                strut_lengths,
                #[trigger] blackout_pixels(strut_lengths)[k],
            ),
        blackout_pixels(strut_lengths).len() == mapped_led_count(strut_lengths),
    decreases strut_lengths.len(),
{
    if strut_lengths.len() > 0 {
        let init = strut_lengths.drop_last();
        let last = (strut_lengths.len() - 1) as usize;
        lemma_blackout_covers_every_led(init);
        let rest = blackout_pixels(init);
        let all = blackout_pixels(strut_lengths);
        assert forall|i: int, led: int|
            0 <= i < strut_lengths.len() && (strut_lengths[i] matches Some(length) && 0 <= led
                < length) implies all.contains(#[trigger] black_pixel(i, led)) by {
            let target = black_pixel(i, led);
            if i < strut_lengths.len() - 1 {
                assert(init[i] == strut_lengths[i]);
                let k = choose|k: int| 0 <= k < rest.len() && rest[k] == target;
                assert(all[k] == rest[k]);
            } else {
                let length = strut_lengths[i]->0;
                assert(all == rest + strut_blackout(last, length));
                assert(all[rest.len() + led] == strut_blackout(last, length)[led]);
            }
        }
        assert forall|k: int| 0 <= k < all.len() implies blacks_out_mapped_led(
            strut_lengths,
            #[trigger] all[k],
        ) by {
            if k < rest.len() {
                assert(all[k] == rest[k]);
                assert(blacks_out_mapped_led(init, rest[k]));
                if let DomeCommand::Pixel { strut_index, .. } = rest[k] {
                    assert(init[strut_index as int] == strut_lengths[strut_index as int]);
                }
            } else {
                let length = strut_lengths.last()->0;
                assert(all[k] == strut_blackout(last, length)[k - rest.len()]);
            }
        }
    }
}

} // verus!

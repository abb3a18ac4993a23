//! Landing gear domain (CPM-L): gear extension and retraction.

use vstd::prelude::*;

verus! {

/// The gear position after one frame: down when the lever is down and the
/// aircraft is below the gear extension speed, up when the lever is up,
/// and unchanged when the lever is down but the aircraft is too fast.
pub open spec fn gear_step(deployed: bool, lever_down: bool, below_extension_speed: bool) -> bool {
    if lever_down && below_extension_speed {
        true
    } else if !lever_down {
        false
    } else {
        deployed
    }
}

/// The gear position the extension/retraction partition commands for this
/// frame, from its previous command, the gear lever and whether the
/// airspeed is below the gear extension speed.
pub fn next_gear_state(deployed: bool, lever_down: bool, below_extension_speed: bool) -> (r: bool)
    ensures
        r == gear_step(deployed, lever_down, below_extension_speed),
{
    if lever_down && below_extension_speed {
        true
    } else if !lever_down {
        false
    } else {
        deployed
    }
}

/// The gear position after a run of frames, each given as (lever down,
/// below the gear extension speed), starting from `deployed`.
pub open spec fn gear_run(deployed: bool, frames: Seq<(bool, bool)>) -> bool
    decreases frames.len(),
{
    if frames.len() == 0 {
        deployed
    } else {
        gear_step(gear_run(deployed, frames.drop_last()), frames.last().0, frames.last().1)
    }
}

/// In some frame the lever was down below the extension speed, and the
/// lever has stayed down in every frame since.
pub open spec fn extended_and_held(frames: Seq<(bool, bool)>) -> bool {
    exists|k: int|
        0 <= k < frames.len() && (#[trigger] frames[k]).0 && frames[k].1 && forall|j: int|
            k <= j < frames.len() ==> (#[trigger] frames[j]).0
}

/// Starting from a retracted gear, the gear is down after a run of frames
/// exactly when, in some frame, the lever was down below the extension
/// speed, and the lever has stayed down ever since.
pub proof fn gear_down_iff_extended_below_speed_and_held(frames: Seq<(bool, bool)>)
    ensures
        gear_run(false, frames) <==> extended_and_held(frames),
    decreases frames.len(),
{
    if frames.len() > 0 {
        let init = frames.drop_last();
        let n = frames.len() - 1;
        let last = frames.last();
        gear_down_iff_extended_below_speed_and_held(init);
        if gear_run(false, frames) {
            if last.0 && last.1 {
                assert(frames[n] == last);
                assert(extended_and_held(frames));
            } else {
                assert(last.0 && gear_run(false, init));
                let k = choose|k: int|
                    0 <= k < init.len() && (#[trigger] init[k]).0 && init[k].1 && forall|j: int|
                        k <= j < init.len() ==> (#[trigger] init[j]).0;
                assert(frames[k] == init[k]);
                assert forall|j: int| k <= j < frames.len() implies (#[trigger] frames[j]).0 by {
                    if j < n {
                        assert(frames[j] == init[j]);
                    }
                }
            }
        }
        if extended_and_held(frames) {
            let k = choose|k: int|
                0 <= k < frames.len() && (#[trigger] frames[k]).0 && frames[k].1 && forall|j: int|
                    k <= j < frames.len() ==> (#[trigger] frames[j]).0;
            assert(frames[n] == last);
            assert(last.0);
            if k < n {
                assert(init[k] == frames[k]);
                assert forall|j: int| k <= j < init.len() implies (#[trigger] init[j]).0 by {
                    assert(init[j] == frames[j]);
                }
                assert(extended_and_held(init));
            }
        }
    }
}

/// After one frame the gear is down exactly when the lever is down and
/// either the aircraft is below the extension speed or the gear was
/// already down.
pub proof fn gear_down_after_one_frame(deployed: bool, lever_down: bool, below_extension_speed: bool)
    ensures
        gear_step(deployed, lever_down, below_extension_speed) <==> (lever_down && (
        below_extension_speed || deployed)),
{
}

} // verus!

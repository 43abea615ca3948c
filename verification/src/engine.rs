//! Animation engine: drives the LED strip model through its three behaviors —
//! idle heartbeat, approach rainbow sweep, and the terminal shutdown frame.

use vstd::prelude::*;
use crate::device::{LedStrip, Rgb, strip_wf, all_off, N_PIXELS};

verus! {

/// One event observed by the engine's run loop: either the command channel
/// timed out (idle tick), or a command arrived. An approach command is
/// recorded together with the number of full 120-frame rainbow sweeps the
/// engine completed before the event deadline passed.
#[derive(Clone, Copy, Debug)]
pub enum EngineEvent {
    Timeout,
    Approaching { sweeps: usize },
    Terminate,
}

/// The heartbeat level flips between the two extremes of a byte.
pub open spec fn toggle(level: u8) -> u8 {
    (255 - level) as u8
}

/// Frame shown on an idle tick: every pixel off except pixel 0, whose green
/// channel carries the current heartbeat level.
pub open spec fn heartbeat_frame(level: u8) -> Seq<Rgb> {
    all_off().update(0, Rgb { red: 0, green: level, blue: 0 })
}

/// Frame shown on termination: every pixel off except pixel 0 at full red.
pub open spec fn terminal_frame() -> Seq<Rgb> {
    all_off().update(0, Rgb { red: 255, green: 0, blue: 0 })
}

/// Upper half wave of the rainbow sinusoid: the truncated value of
/// 127 * (1 + sin(d degrees)) for each degree d of the first quarter; the
/// sine's symmetries give the rest of the wave.
pub open spec fn sine_hi() -> Seq<u8> {
    seq![
        127u8, 129, 131, 133, 135, 138, 140, 142, 144, 146, 149, 151, 153, 155, 157, 159, 162,
        164, 166, 168, 170, 172, 174, 176, 178, 180, 182, 184, 186, 188, 190, 192, 194, 196,
        198, 199, 201, 203, 205, 206, 208, 210, 211, 213, 215, 216, 218, 219, 221, 222, 224,
        225, 227, 228, 229, 231, 232, 233, 234, 235, 236, 238, 239, 240, 241, 242, 243, 243,
        244, 245, 246, 247, 247, 248, 249, 249, 250, 250, 251, 251, 252, 252, 252, 253, 253,
        253, 253, 253, 253, 253, 254,
    ]
}

/// Lower half wave: the truncated value of 127 * (1 - sin(d degrees)) for
/// each degree d of the first quarter.
pub open spec fn sine_lo() -> Seq<u8> {
    seq![
        127u8, 124, 122, 120, 118, 115, 113, 111, 109, 107, 104, 102, 100, 98, 96, 94, 91, 89,
        87, 85, 83, 81, 79, 77, 75, 73, 71, 69, 67, 65, 63, 61, 59, 57, 55, 54, 52, 50, 48, 47,
        45, 43, 42, 40, 38, 37, 35, 34, 32, 31, 29, 28, 26, 25, 24, 22, 21, 20, 19, 18, 17, 15,
        14, 13, 12, 11, 10, 10, 9, 8, 7, 6, 6, 5, 4, 4, 3, 3, 2, 2, 1, 1, 1, 0, 0, 0, 0, 0, 0,
        0, 0,
    ]
}

/// One channel of the rainbow sinusoid: the truncated value of
/// 127 * (1 + sin(angle degrees)), read from the quarter-wave tables by the
/// sine's symmetries; every value lies in [0, 254].
pub open spec fn channel_spec(angle: int) -> int {
    let d = angle % 360;
    if d <= 90 {
        sine_hi()[d] as int
    } else if d <= 180 {
        sine_hi()[180 - d] as int
    } else if d <= 270 {
        sine_lo()[d - 180] as int
    } else {
        sine_lo()[360 - d] as int
    }
}

/// The upper quarter-wave table as a vector.
#[verifier::rlimit(100)]
fn sine_hi_vec() -> (v: Vec<u8>)
    ensures
        v@ == sine_hi(),
{
    let mut v: Vec<u8> = Vec::new();
    v.push(127);
    v.push(129);
    v.push(131);
    v.push(133);
    v.push(135);
    v.push(138);
    v.push(140);
    v.push(142);
    v.push(144);
    v.push(146);
    v.push(149);
    v.push(151);
    v.push(153);
    v.push(155);
    v.push(157);
    v.push(159);
    v.push(162);
    v.push(164);
    v.push(166);
    v.push(168);
    v.push(170);
    v.push(172);
    v.push(174);
    v.push(176);
    v.push(178);
    v.push(180);
    v.push(182);
    v.push(184);
    v.push(186);
    v.push(188);
    v.push(190);
    v.push(192);
    v.push(194);
    v.push(196);
    v.push(198);
    v.push(199);
    v.push(201);
    v.push(203);
    v.push(205);
    v.push(206);
    v.push(208);
    v.push(210);
    v.push(211);
    v.push(213);
    v.push(215);
    v.push(216);
    v.push(218);
    v.push(219);
    v.push(221);
    v.push(222);
    v.push(224);
    v.push(225);
    v.push(227);
    v.push(228);
    v.push(229);
    v.push(231);
    v.push(232);
    v.push(233);
    v.push(234);
    v.push(235);
    v.push(236);
    v.push(238);
    v.push(239);
    v.push(240);
    v.push(241);
    v.push(242);
    v.push(243);
    v.push(243);
    v.push(244);
    v.push(245);
    v.push(246);
    v.push(247);
    v.push(247);
    v.push(248);
    v.push(249);
    v.push(249);
    v.push(250);
    v.push(250);
    v.push(251);
    v.push(251);
    v.push(252);
    v.push(252);
    v.push(252);
    v.push(253);
    v.push(253);
    v.push(253);
    v.push(253);
    v.push(253);
    v.push(253);
    v.push(253);
    v.push(254);
    proof {
        assert(v@ =~= sine_hi());
    }
    v
}

/// The lower quarter-wave table as a vector.
#[verifier::rlimit(100)]
fn sine_lo_vec() -> (v: Vec<u8>)
    ensures
        v@ == sine_lo(),
{
    let mut v: Vec<u8> = Vec::new();
    v.push(127);
    v.push(124);
    v.push(122);
    v.push(120);
    v.push(118);
    v.push(115);
    v.push(113);
    v.push(111);
    v.push(109);
    v.push(107);
    v.push(104);
    v.push(102);
    v.push(100);
    v.push(98);
    v.push(96);
    v.push(94);
    v.push(91);
    v.push(89);
    v.push(87);
    v.push(85);
    v.push(83);
    v.push(81);
    v.push(79);
    v.push(77);
    v.push(75);
    v.push(73);
    v.push(71);
    v.push(69);
    v.push(67);
    v.push(65);
    v.push(63);
    v.push(61);
    v.push(59);
    v.push(57);
    v.push(55);
    v.push(54);
    v.push(52);
    v.push(50);
    v.push(48);
    v.push(47);
    v.push(45);
    v.push(43);
    v.push(42);
    v.push(40);
    v.push(38);
    v.push(37);
    v.push(35);
    v.push(34);
    v.push(32);
    v.push(31);
    v.push(29);
    v.push(28);
    v.push(26);
    v.push(25);
    v.push(24);
    v.push(22);
    v.push(21);
    v.push(20);
    v.push(19);
    v.push(18);
    v.push(17);
    v.push(15);
    v.push(14);
    v.push(13);
    v.push(12);
    v.push(11);
    v.push(10);
    v.push(10);
    v.push(9);
    v.push(8);
    v.push(7);
    v.push(6);
    v.push(6);
    v.push(5);
    v.push(4);
    v.push(4);
    v.push(3);
    v.push(3);
    v.push(2);
    v.push(2);
    v.push(1);
    v.push(1);
    v.push(1);
    v.push(0);
    v.push(0);
    v.push(0);
    v.push(0);
    v.push(0);
    v.push(0);
    v.push(0);
    v.push(0);
    proof {
        assert(v@ =~= sine_lo());
    }
    v
}

/// Color of pixel `i` at hue step `n`: the three channels are the sinusoid
/// phase-shifted by 0, 120 and 240 degrees, with a 30-degree offset per pixel.
pub open spec fn color_spec(n: int, i: int) -> (int, int, int) {
    (
        channel_spec(n + 30 * i),
        channel_spec(n + 30 * i + 120),
        channel_spec(n + 30 * i + 240),
    )
}

/// One full rainbow frame at hue step `n`.
pub open spec fn approach_frame_spec(n: int) -> Seq<Rgb> {
    Seq::new(N_PIXELS as nat, |i: int| Rgb {
        red: color_spec(n, i).0 as u8,
        green: color_spec(n, i).1 as u8,
        blue: color_spec(n, i).2 as u8,
    })
}

/// The 120 frames of one full hue rotation, in steps of 3 degrees.
pub open spec fn sweep_trace() -> Seq<Seq<Rgb>> {
    Seq::new(120, |k: int| approach_frame_spec(3 * k))
}

/// All frames flushed by an approach animation of `sweeps` full rotations.
pub open spec fn approach_trace(sweeps: nat) -> Seq<Seq<Rgb>>
    decreases sweeps,
{
    if sweeps == 0 {
        Seq::empty()
    } else {
        approach_trace((sweeps - 1) as nat) + sweep_trace()
    }
}

/// Frames flushed while handling one event, given the heartbeat level held
/// before the event.
pub open spec fn event_trace(level: u8, ev: EngineEvent) -> Seq<Seq<Rgb>> {
    match ev {
        EngineEvent::Timeout => seq![heartbeat_frame(toggle(level))],
        EngineEvent::Approaching { sweeps } => approach_trace(sweeps as nat).push(all_off()),
        EngineEvent::Terminate => seq![terminal_frame()],
    }
}

/// Heartbeat level after one event.
pub open spec fn event_level(level: u8, ev: EngineEvent) -> u8 {
    match ev {
        EngineEvent::Timeout => toggle(level),
        _ => level,
    }
}

/// Number of events the run loop consumes: everything up to and including
/// the first `Terminate`, or the whole script if none occurs.
pub open spec fn processed_count(events: Seq<EngineEvent>) -> int
    decreases events.len(),
{
    if events.len() == 0 {
        0
    } else if events[0] is Terminate {
        1
    } else {
        1 + processed_count(events.drop_first())
    }
}

/// All frames the run loop flushes over a script of events, starting at the
/// given heartbeat level; processing stops at the first `Terminate`.
pub open spec fn run_trace(level: u8, events: Seq<EngineEvent>) -> Seq<Seq<Rgb>>
    decreases events.len(),
{
    if events.len() == 0 {
        Seq::empty()
    } else if events[0] is Terminate {
        seq![terminal_frame()]
    } else {
        event_trace(level, events[0]) + run_trace(event_level(level, events[0]), events.drop_first())
    }
}

/// Render the terminal frame: all pixels off but pixel 0 at full red.
pub fn terminate(strip: &mut LedStrip)
    requires
        strip_wf(*old(strip)),
    ensures
        strip_wf(*final(strip)),
        final(strip).shown@ == terminal_frame(),
        final(strip).flushed@ == old(strip).flushed@.push(terminal_frame()),
        final(strip).brightness == old(strip).brightness,
{
    strip.set_all_pixels(0, 0, 0);
    strip.set_pixel(0, 255, 0, 0);
    proof {
        assert(strip.local@ =~= terminal_frame());
    }
    strip.show();
}

/// Render one idle tick: flip the heartbeat level and show it on pixel 0's
/// green channel, every other pixel off.
pub fn heartbeat(strip: &mut LedStrip, heartbeat_state: &mut u8)
    requires
        strip_wf(*old(strip)),
    ensures
        strip_wf(*final(strip)),
        *final(heartbeat_state) == toggle(*old(heartbeat_state)),
        final(strip).shown@ == heartbeat_frame(*final(heartbeat_state)),
        final(strip).flushed@ == old(strip).flushed@.push(
            heartbeat_frame(*final(heartbeat_state)),
        ),
        final(strip).brightness == old(strip).brightness,
{
    *heartbeat_state = 255 - *heartbeat_state;
    strip.set_all_pixels(0, 0, 0);
    strip.set_pixel(0, 0, *heartbeat_state, 0);
    proof {
        assert(strip.local@ =~= heartbeat_frame(*heartbeat_state));
    }
    strip.show();
}

/// Compute one channel of the rainbow sinusoid for an angle below 1080.
fn channel(angle: u32) -> (v: u8)
    requires
        angle < 1080,
    ensures
        v as int == channel_spec(angle as int),
{
    let hi = sine_hi_vec();
    let lo = sine_lo_vec();
    let d = (angle % 360) as usize;
    if d <= 90 {
        hi[d]
    } else if d <= 180 {
        hi[180 - d]
    } else if d <= 270 {
        lo[d - 180]
    } else {
        lo[360 - d]
    }
}

/// Color of pixel `i` at hue step `n` of the rainbow sweep.
pub fn color(n: i32, i: usize) -> (c: (u8, u8, u8))
    requires
        0 <= n < 360,
        i < N_PIXELS,
    ensures
        c.0 as int == color_spec(n as int, i as int).0,
        c.1 as int == color_spec(n as int, i as int).1,
        c.2 as int == color_spec(n as int, i as int).2,
{
    let base = (n as u32) + 30 * (i as u32);
    (channel(base), channel(base + 120), channel(base + 240))
}

/// Render the approach animation: `sweeps` full rainbow rotations, then one
/// cleared frame.
pub fn iss_approaching(strip: &mut LedStrip, sweeps: usize)
    requires
        strip_wf(*old(strip)),
    ensures
        strip_wf(*final(strip)),
        final(strip).shown@ == all_off(),
        final(strip).flushed@ == old(strip).flushed@ + approach_trace(sweeps as nat).push(
            all_off(),
        ),
        final(strip).brightness == old(strip).brightness,
{
    let mut s: usize = 0;
    while s < sweeps
        invariant
            s <= sweeps,
            strip_wf(*strip),
            strip.flushed@ == old(strip).flushed@ + approach_trace(s as nat),
            strip.brightness == old(strip).brightness,
        decreases sweeps - s,
    {
        let mut k: usize = 0;
        while k < 120
            invariant
                k <= 120,
                s < sweeps,
                strip_wf(*strip),
                strip.flushed@ == old(strip).flushed@ + approach_trace(s as nat) + sweep_trace()
                    .take(k as int),
                strip.brightness == old(strip).brightness,
            decreases 120 - k,
        {
            let n: i32 = 3 * (k as i32);
            let mut i: usize = 0;
            while i < N_PIXELS
                invariant
                    i <= N_PIXELS,
                    0 <= n < 360,
                    n == 3 * k,
                    strip_wf(*strip),
                    forall|j: int| 0 <= j < i ==> strip.local@[j] == approach_frame_spec(
                        n as int,
                    )[j],
                    strip.flushed@ == old(strip).flushed@ + approach_trace(s as nat)
                        + sweep_trace().take(k as int),
                    strip.brightness == old(strip).brightness,
                decreases N_PIXELS - i,
            {
                let c = color(n, i);
                strip.set_pixel(i, c.0, c.1, c.2);
                i += 1;
            }
            proof {
                assert(strip.local@ =~= approach_frame_spec(n as int));
            }
            strip.show();
            proof {
                assert(sweep_trace().take(k + 1) =~= sweep_trace().take(k as int).push(
                    approach_frame_spec(3 * k),
                ));
                assert(strip.flushed@ =~= old(strip).flushed@ + approach_trace(s as nat)
                    + sweep_trace().take(k + 1));
            }
            k += 1;
        }
        proof {
            assert(sweep_trace().take(120) =~= sweep_trace());
            assert(approach_trace((s + 1) as nat) == approach_trace(s as nat) + sweep_trace());
            assert(strip.flushed@ =~= old(strip).flushed@ + approach_trace((s + 1) as nat));
        }
        s += 1;
    }
    strip.clear();
    strip.show();
    proof {
        assert(strip.flushed@ =~= old(strip).flushed@ + approach_trace(sweeps as nat).push(
            all_off(),
        ));
    }
}

/// The engine's run loop over a script of events: idle ticks pulse the
/// heartbeat, approach events run the rainbow animation, and the first
/// `Terminate` shows the terminal frame and stops the loop for good.
/// Returns how many events were consumed.
pub fn blinkt_mainloop(strip: &mut LedStrip, events: &Vec<EngineEvent>) -> (n: usize)
    requires
        strip_wf(*old(strip)),
    ensures
        strip_wf(*final(strip)),
        n as int == processed_count(events@),
        final(strip).flushed@ == old(strip).flushed@ + run_trace(0, events@),
        final(strip).brightness == old(strip).brightness,
        run_trace(0, events@).len() > 0 ==> final(strip).shown@ == run_trace(0, events@).last(),
        run_trace(0, events@).len() == 0 ==> final(strip).shown@ == old(strip).shown@,
{
    let mut heartbeat_state: u8 = 0;
    let mut idx: usize = 0;
    proof {
        assert(events@.skip(0) =~= events@);
    }
    while idx < events.len()
        invariant
            idx <= events.len(),
            strip_wf(*strip),
            strip.brightness == old(strip).brightness,
            strip.flushed@.len() >= old(strip).flushed@.len(),
            strip.flushed@.len() > old(strip).flushed@.len() ==> strip.shown@
                == strip.flushed@.last(),
            strip.flushed@.len() == old(strip).flushed@.len() ==> strip.shown@ == old(
                strip,
            ).shown@ && strip.flushed@ == old(strip).flushed@,
            strip.flushed@ + run_trace(heartbeat_state, events@.skip(idx as int)) == old(
                strip,
            ).flushed@ + run_trace(0, events@),
            processed_count(events@) == idx + processed_count(events@.skip(idx as int)),
        decreases events.len() - idx,
    {
        let ghost pre_level = heartbeat_state;
        let ghost pre_flushed = strip.flushed@;
        let ghost rest = events@.skip(idx as int);
        proof {
            assert(rest.len() > 0);
            assert(rest[0] == events@[idx as int]);
            assert(rest.drop_first() =~= events@.skip(idx as int + 1));
        }
        match events[idx] {
            EngineEvent::Timeout => {
                heartbeat(strip, &mut heartbeat_state);
            },
            EngineEvent::Approaching { sweeps } => {
                iss_approaching(strip, sweeps);
            },
            EngineEvent::Terminate => {
                terminate(strip);
                proof {
                    assert(run_trace(pre_level, rest) =~= seq![terminal_frame()]);
                    assert(pre_flushed.push(terminal_frame()) =~= pre_flushed + run_trace(
                        pre_level,
                        rest,
                    ));
                    assert(strip.flushed@ =~= old(strip).flushed@ + run_trace(0, events@));
                    assert(run_trace(0, events@).len() > 0);
                    assert(strip.shown@ == strip.flushed@.last());
                    assert(strip.flushed@.last() == run_trace(0, events@).last());
                    assert(processed_count(rest) == 1);
                }
                return idx + 1;
            },
        }
        proof {
            assert(heartbeat_state == event_level(pre_level, rest[0]));
            assert(strip.flushed@ =~= pre_flushed + event_trace(pre_level, rest[0]));
            assert(run_trace(pre_level, rest) == event_trace(pre_level, rest[0]) + run_trace(
                heartbeat_state,
                rest.drop_first(),
            ));
            assert(strip.flushed@ + run_trace(heartbeat_state, events@.skip(idx as int + 1))
                =~= pre_flushed + run_trace(pre_level, rest));
            assert(event_trace(pre_level, rest[0]).len() > 0);
            assert(strip.shown@ == strip.flushed@.last());
        }
        idx += 1;
    }
    proof {
        assert(events@.skip(events@.len() as int) =~= Seq::<EngineEvent>::empty());
        assert(strip.flushed@ =~= old(strip).flushed@ + run_trace(0, events@));
        if run_trace(0, events@).len() > 0 {
            assert(strip.flushed@.len() > old(strip).flushed@.len());
            assert(strip.flushed@.last() == run_trace(0, events@).last());
        }
    }
    events.len()
}

/// Every channel value of the rainbow sinusoid lies within the byte
/// range, strictly below full intensity, so no rainbow frame can be
/// mistaken for the terminal frame.
pub proof fn lemma_channel_spec_bounds(angle: int)
    ensures
        0 <= channel_spec(angle) <= 254,
{
    vstd::arithmetic::div_mod::lemma_mod_bound(angle, 360);
    assert forall|k: int| 0 <= k <= 90 implies sine_hi()[k] <= 254 by {}
    assert forall|k: int| 0 <= k <= 90 implies sine_lo()[k] <= 254 by {}
}

/// Hue and pixel phase are periodic: a full turn of the hue, or twelve
/// pixel positions, land on the same colors.
pub proof fn lemma_color_periodic(n: int, i: int)
    ensures
        channel_spec(n + 360) == channel_spec(n),
        color_spec(n + 360, i) == color_spec(n, i),
        color_spec(n, i + 12) == color_spec(n, i),
{
    vstd::arithmetic::div_mod::lemma_mod_add_multiples_vanish(n, 360);
    vstd::arithmetic::div_mod::lemma_mod_add_multiples_vanish(n + 30 * i, 360);
    vstd::arithmetic::div_mod::lemma_mod_add_multiples_vanish(n + 30 * i + 120, 360);
    vstd::arithmetic::div_mod::lemma_mod_add_multiples_vanish(n + 30 * i + 240, 360);
    assert(n + 30 * (i + 12) == n + 30 * i + 360) by (nonlinear_arith);
}

/// No frame of an approach animation equals the terminal frame.
proof fn lemma_approach_trace_no_terminal(sweeps: nat)
    ensures
        forall|j: int|
            0 <= j < approach_trace(sweeps).len() ==> approach_trace(sweeps)[j]
                != terminal_frame(),
    decreases sweeps,
{
    if sweeps > 0 {
        lemma_approach_trace_no_terminal((sweeps - 1) as nat);
        assert forall|j: int| 0 <= j < approach_trace(sweeps).len() implies approach_trace(
            sweeps,
        )[j] != terminal_frame() by {
            let prev = approach_trace((sweeps - 1) as nat);
            if j >= prev.len() {
                let k = j - prev.len();
                lemma_channel_spec_bounds(3 * k);
                assert(approach_trace(sweeps)[j] == approach_frame_spec(3 * k));
                assert(approach_frame_spec(3 * k)[0].red != 255);
                assert(terminal_frame()[0].red == 255);
            }
        }
    }
}

/// Termination law: in a script whose first `Terminate` stands at position
/// `k`, the run loop consumes exactly the first `k + 1` events and flushes
/// the terminal frame exactly once — as the very last frame.
pub proof fn lemma_terminate_once(level: u8, events: Seq<EngineEvent>, k: int)
    requires
        0 <= k < events.len(),
        events[k] is Terminate,
        forall|i: int| 0 <= i < k ==> !(events[i] is Terminate),
    ensures
        processed_count(events) == k + 1,
        run_trace(level, events).len() > 0,
        run_trace(level, events).last() == terminal_frame(),
        forall|j: int|
            0 <= j < run_trace(level, events).len() - 1 ==> run_trace(level, events)[j]
                != terminal_frame(),
    decreases k,
{
    let trace = run_trace(level, events);
    if k == 0 {
        assert(trace =~= seq![terminal_frame()]);
    } else {
        let e0 = events[0];
        let rest = events.drop_first();
        let l2 = event_level(level, e0);
        assert(rest[k - 1] is Terminate);
        assert(forall|i: int| 0 <= i < k - 1 ==> !(rest[i] is Terminate));
        lemma_terminate_once(l2, rest, k - 1);
        let et = event_trace(level, e0);
        let rt = run_trace(l2, rest);
        assert(trace == et + rt);
        assert(trace.last() == rt.last());
        assert forall|j: int| 0 <= j < trace.len() - 1 implies trace[j] != terminal_frame() by {
            if j < et.len() {
                match e0 {
                    EngineEvent::Timeout => {
                        assert(et[j] == heartbeat_frame(toggle(level)));
                        assert(et[j][0].red == 0);
                    },
                    EngineEvent::Approaching { sweeps } => {
                        lemma_approach_trace_no_terminal(sweeps as nat);
                        if j == et.len() - 1 {
                            assert(et[j] == all_off());
                            assert(et[j][0].red == 0);
                        } else {
                            assert(et[j] == approach_trace(sweeps as nat)[j]);
                        }
                    },
                    EngineEvent::Terminate => {
                        assert(false);
                    },
                }
                assert(terminal_frame()[0].red == 255);
            } else {
                assert(trace[j] == rt[j - et.len()]);
            }
        }
    }
}

/// Idle law: while only timeouts arrive, the flushed frames are exactly the
/// heartbeat frames, pixel 0's green channel alternating between the two
/// extremes on strictly alternating ticks and every other pixel off.
pub proof fn lemma_heartbeat_alternates(level: u8, events: Seq<EngineEvent>)
    requires
        forall|i: int| 0 <= i < events.len() ==> events[i] is Timeout,
    ensures
        run_trace(level, events).len() == events.len(),
        forall|j: int|
            0 <= j < events.len() ==> run_trace(level, events)[j] == heartbeat_frame(
                if j % 2 == 0 {
                    toggle(level)
                } else {
                    level
                },
            ),
    decreases events.len(),
{
    if events.len() > 0 {
        let rest = events.drop_first();
        lemma_heartbeat_alternates(toggle(level), rest);
        let trace = run_trace(level, events);
        assert(trace == seq![heartbeat_frame(toggle(level))] + run_trace(toggle(level), rest));
        assert(toggle(toggle(level)) == level);
        assert forall|j: int| 0 <= j < events.len() implies trace[j] == heartbeat_frame(
            if j % 2 == 0 {
                toggle(level)
            } else {
                level
            },
        ) by {
            if j > 0 {
                assert(trace[j] == run_trace(toggle(level), rest)[j - 1]);
            }
        }
    }
}

/// The idle law at the engine's actual starting level: the green channel of
/// pixel 0 reads 255 on the first tick, 0 on the second, and so on.
pub proof fn lemma_idle_heartbeat(events: Seq<EngineEvent>)
    requires
        forall|i: int| 0 <= i < events.len() ==> events[i] is Timeout,
    ensures
        run_trace(0, events).len() == events.len(),
        forall|j: int|
            0 <= j < events.len() ==> run_trace(0, events)[j] == heartbeat_frame(
                if j % 2 == 0 {
                    255u8
                } else {
                    0u8
                },
            ),
{
    lemma_heartbeat_alternates(0, events);
}

} // verus!

use iss_notify::device::{LedStrip, Rgb, N_PIXELS};
use iss_notify::engine::{blinkt_mainloop, color, heartbeat, iss_approaching, terminate,
    EngineEvent};

fn assert_only_pixel0(strip: &LedStrip, expected: Rgb) {
    assert_eq!(strip.get_shown(0), expected);
    for i in 1..N_PIXELS {
        assert_eq!(strip.get_shown(i), Rgb { red: 0, green: 0, blue: 0 });
    }
}

#[test]
fn fresh_strip_is_dark_at_full_brightness() {
    let strip = LedStrip::new();
    for i in 0..N_PIXELS {
        assert_eq!(strip.get_shown(i), Rgb { red: 0, green: 0, blue: 0 });
    }
    assert_eq!(strip.get_brightness(), 31);
}

#[test]
fn brightness_can_be_lowered() {
    let mut strip = LedStrip::new();
    strip.set_all_pixels_brightness(1);
    assert_eq!(strip.get_brightness(), 1);
}

#[test]
fn heartbeat_toggles_green_between_extremes() {
    let mut strip = LedStrip::new();
    let mut state: u8 = 0;
    heartbeat(&mut strip, &mut state);
    assert_eq!(state, 255);
    assert_only_pixel0(&strip, Rgb { red: 0, green: 255, blue: 0 });
    heartbeat(&mut strip, &mut state);
    assert_eq!(state, 0);
    assert_only_pixel0(&strip, Rgb { red: 0, green: 0, blue: 0 });
    heartbeat(&mut strip, &mut state);
    assert_eq!(state, 255);
    assert_only_pixel0(&strip, Rgb { red: 0, green: 255, blue: 0 });
}

#[test]
fn terminate_shows_single_red_pixel() {
    let mut strip = LedStrip::new();
    terminate(&mut strip);
    assert_only_pixel0(&strip, Rgb { red: 255, green: 0, blue: 0 });
}

#[test]
fn color_exact_values() {
    assert_eq!(color(0, 0), (127, 236, 17));
    assert_eq!(color(90, 1), (236, 17, 127));
}

#[test]
fn color_peaks_at_the_quarter_turns() {
    // 127 * (1 + sin) truncated: 254 at the crest, 0 in the trough.
    assert_eq!(color(90, 0).0, 254);
    assert_eq!(color(270, 0).0, 0);
}

#[test]
fn color_channels_stay_below_full_red() {
    for n in 0..120 {
        for i in 0..8 {
            let (r, g, b) = color(3 * n, i);
            assert!(r <= 254 && g <= 254 && b <= 254);
        }
    }
}

#[test]
fn approach_animation_clears_at_the_end() {
    let mut strip = LedStrip::new();
    iss_approaching(&mut strip, 2);
    for i in 0..N_PIXELS {
        assert_eq!(strip.get_shown(i), Rgb { red: 0, green: 0, blue: 0 });
    }
}

#[test]
fn mainloop_idle_ticks_alternate() {
    let mut strip = LedStrip::new();
    let events = vec![EngineEvent::Timeout, EngineEvent::Timeout, EngineEvent::Timeout];
    let n = blinkt_mainloop(&mut strip, &events);
    assert_eq!(n, 3);
    assert_only_pixel0(&strip, Rgb { red: 0, green: 255, blue: 0 });
}

#[test]
fn mainloop_stops_at_first_terminate() {
    let mut strip = LedStrip::new();
    let events = vec![
        EngineEvent::Timeout,
        EngineEvent::Approaching { sweeps: 1 },
        EngineEvent::Terminate,
        EngineEvent::Timeout,
        EngineEvent::Terminate,
    ];
    let n = blinkt_mainloop(&mut strip, &events);
    assert_eq!(n, 3);
    assert_only_pixel0(&strip, Rgb { red: 255, green: 0, blue: 0 });
}

#[test]
fn mainloop_terminate_while_idle() {
    let mut strip = LedStrip::new();
    let events = vec![EngineEvent::Terminate];
    let n = blinkt_mainloop(&mut strip, &events);
    assert_eq!(n, 1);
    assert_only_pixel0(&strip, Rgb { red: 255, green: 0, blue: 0 });
}

#[test]
fn mainloop_empty_script_changes_nothing() {
    let mut strip = LedStrip::new();
    let events: Vec<EngineEvent> = vec![];
    let n = blinkt_mainloop(&mut strip, &events);
    assert_eq!(n, 0);
    for i in 0..N_PIXELS {
        assert_eq!(strip.get_shown(i), Rgb { red: 0, green: 0, blue: 0 });
    }
}

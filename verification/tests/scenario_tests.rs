//! End-to-end scenario: one qualifying feed entry in the near future drives
//! the scheduler's wait and the engine's approach animation.

use chrono::TimeZone;
use iss_notify::device::{LedStrip, Rgb, N_PIXELS};
use iss_notify::engine::{blinkt_mainloop, EngineEvent};
use iss_notify::feed::parse;
use iss_notify::sched::{plan_sighting, resolve_wait, BlinktCmd, WaitPlan};

#[test]
fn qualifying_entry_ten_minutes_out_waits_then_animates() {
    let desc = "\tDate: Friday Jan 03, 2025 &lt;br/&gt;\n\
                \tTime: 9:45 PM &lt;br/&gt;\n\
                \tApproach: 10° above NW &lt;br/&gt;\n\
                \tDeparture: 45° above NE &lt;br/&gt;\n\
                \tDuration: 6 minutes &lt;br/&gt;\n\
                \tMaximum Elevation: 52° &lt;br/&gt;";
    let doc = format!(
        "<rss version=\"2.0\"><channel><title>Sightings</title>\
         <link>http://example.invalid/</link><description>upcoming</description>\
         <item><title>ISS Sighting</title><description>{}</description></item>\
         </channel></rss>",
        desc
    );
    let sightings = parse(&doc.into_bytes()).unwrap();
    assert_eq!(sightings.len(), 1);
    let s = &sightings[0];
    let event_ts = chrono_tz::America::Los_Angeles
        .with_ymd_and_hms(2025, 1, 3, 21, 45, 0)
        .single()
        .unwrap()
        .timestamp();
    assert_eq!(s.datetime, event_ts);
    assert_eq!(s.approach.direction, "NW");
    assert_eq!(s.approach.elevation, 10);
    assert_eq!(s.departure.direction, "NE");
    assert_eq!(s.departure.elevation, 45);
    assert_eq!(s.duration, 6);
    assert_eq!(s.max_elevation, 52);

    // The feed entry lies 600 seconds ahead: the scheduler waits 300 of them.
    let now = event_ts - 600;
    assert_eq!(plan_sighting(s.datetime, now), WaitPlan::Wait { seconds: 300 });

    // No interrupt arrives during the wait: the engine is told to animate
    // until the event's instant.
    let cmd = resolve_wait(false, s.datetime);
    assert_eq!(cmd, BlinktCmd::IssApproching(event_ts));

    // The engine runs the rainbow sweep until the deadline passes, then
    // clears the strip and returns to idle.
    let mut strip = LedStrip::new();
    let until = match cmd {
        BlinktCmd::IssApproching(t) => t,
        BlinktCmd::Terminate => panic!("no interrupt was delivered"),
    };
    assert!(until > now);
    let events = vec![EngineEvent::Approaching { sweeps: 3 }, EngineEvent::Timeout];
    let n = blinkt_mainloop(&mut strip, &events);
    assert_eq!(n, 2);
    // After the approach cleared the strip, the next idle tick pulses green.
    assert_eq!(strip.get_shown(0), Rgb { red: 0, green: 255, blue: 0 });
    for i in 1..N_PIXELS {
        assert_eq!(strip.get_shown(i), Rgb { red: 0, green: 0, blue: 0 });
    }
}

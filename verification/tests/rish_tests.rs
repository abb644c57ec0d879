use asmo::rish::{CoreUsage, RishBatch};
use asmo::types::{BatteryStatus, CpuSnap};

fn feed(batch: &mut RishBatch, snaps: &mut Vec<CpuSnap>, text: &str) -> bool {
    for line in text.lines() {
        if batch.feed_line(snaps, line) {
            return true;
        }
    }
    false
}

const BATCH: &str = "UPTIME 8928.45 31000.12
cpu  10 10 10 10 10 10 10 10
cpu0 100 0 100 700 100 0 0 0
cpu1 50 0 50 100 0 0 0 0
  level: 100
  status: 5
  temperature: 310
DISPLAY_DATA
mBrightness=0.212
mBrightness=0.9
mActiveRenderFrameRate=120.0
DISPLAY_END
END_OF_BATCH";

#[test]
fn batch_reads_every_section() {
    let mut snaps = vec![CpuSnap::default(); 2];
    let mut batch = RishBatch::new(2);
    assert!(feed(&mut batch, &mut snaps, BATCH));
    let t = &batch.tick;
    assert_eq!(t.uptime.as_deref(), Some("8928.45"));
    assert_eq!(t.battery_level, 100);
    assert_eq!(t.battery_status, BatteryStatus::Full);
    assert_eq!(t.battery_temp.as_ref().map(|o| o.as_deref()), Some(Some("310")));
    assert_eq!(t.brightness.as_deref(), Some("0.212"));
    assert_eq!(t.refresh_rate.as_deref(), Some("120.0"));
    assert_eq!(snaps[0], CpuSnap { total: 1000, idle: 800 });
    assert_eq!(snaps[1], CpuSnap { total: 200, idle: 100 });
    assert_eq!(batch.usages[0], Some(CoreUsage { busy: 200, total: 1000 }));
    assert_eq!(batch.usages[1], Some(CoreUsage { busy: 100, total: 200 }));
}

#[test]
fn second_batch_measures_the_interval() {
    let mut snaps = vec![CpuSnap::default(); 1];
    let mut first = RishBatch::new(1);
    feed(&mut first, &mut snaps, "cpu0 100 0 100 700 100 0 0 0\nEND_OF_BATCH");
    let mut second = RishBatch::new(1);
    feed(&mut second, &mut snaps, "cpu0 150 0 150 750 150 0 0 0\nEND_OF_BATCH");
    assert_eq!(second.usages[0], Some(CoreUsage { busy: 100, total: 200 }));
    let mut third = RishBatch::new(1);
    feed(&mut third, &mut snaps, "cpu0 150 0 150 750 150 0 0 0\nEND_OF_BATCH");
    assert_eq!(third.usages[0], None);
}

#[test]
fn unknown_cores_and_aggregate_line_are_ignored() {
    let mut snaps = vec![CpuSnap::default(); 1];
    let mut batch = RishBatch::new(1);
    feed(&mut batch, &mut snaps, "cpu 1 2 3\ncpu7 1 2 3\ncpux 1 2\nEND_OF_BATCH");
    assert_eq!(snaps[0], CpuSnap::default());
    assert_eq!(batch.usages[0], None);
}

#[test]
fn unparseable_battery_values_read_as_zero() {
    let mut snaps = Vec::new();
    let mut batch = RishBatch::new(0);
    feed(&mut batch, &mut snaps, "level: full\nstatus: ?\ntemperature:\nEND_OF_BATCH");
    assert_eq!(batch.tick.battery_level, 0);
    assert_eq!(batch.tick.battery_status, BatteryStatus::Unknown);
    assert_eq!(batch.tick.battery_temp, Some(None));
}

#[test]
fn display_lines_count_only_inside_the_section() {
    let mut snaps = Vec::new();
    let mut batch = RishBatch::new(0);
    feed(
        &mut batch,
        &mut snaps,
        "mBrightness=0.5\nDISPLAY_DATA\nlevel: 40\nDISPLAY_END\nmActiveRenderFrameRate=60\nEND_OF_BATCH",
    );
    assert_eq!(batch.tick.brightness, None);
    assert_eq!(batch.tick.refresh_rate, None);
    assert_eq!(batch.tick.battery_level, 0);
}

#[test]
fn end_marker_stops_the_batch() {
    let mut snaps = Vec::new();
    let mut batch = RishBatch::new(0);
    assert!(!batch.feed_line(&mut snaps, "UPTIME 5"));
    assert!(batch.feed_line(&mut snaps, "  END_OF_BATCH \r"));
    assert_eq!(batch.tick.uptime.as_deref(), Some("5"));
    assert!(!batch.in_display);
}

use std::collections::{BTreeMap, HashMap};
use std::time::{Duration, Instant};

use highway::pothole::TimerId;

/// A simulated clock with per-node timers.
struct World {
    current_time: Instant,
    timers: HashMap<&'static str, BTreeMap<Instant, TimerId>>,
}

impl World {
    fn new() -> Self {
        World { current_time: Instant::now(), timers: HashMap::new() }
    }

    fn advance_time(&mut self, duration: Duration) {
        self.current_time += duration;
    }

    fn schedule_timer(&mut self, node: &'static str, timer: TimerId, instant: Instant) {
        self.timers.entry(node).or_default().insert(instant, timer);
    }

    fn fire_timers(&mut self, node: &'static str) -> Vec<TimerId> {
        let timers_ref = self.timers.entry(node).or_default();
        // adding 1 ms so that timers scheduled for now will also fire
        let timers_to_remain = timers_ref.split_off(&(self.current_time + Duration::from_millis(1)));
        std::mem::replace(timers_ref, timers_to_remain).into_values().collect()
    }
}

#[test]
fn test_timers() {
    let mut world = World::new();
    let instant = Instant::now();

    let one_second = Duration::from_millis(1000);
    let two_seconds = Duration::from_millis(2000);

    let node_id = "TestNode";

    assert!(world.fire_timers(node_id).is_empty());

    world.schedule_timer(node_id, 0, instant + two_seconds);

    assert!(world.fire_timers(node_id).is_empty());

    world.advance_time(one_second);

    assert!(world.fire_timers(node_id).is_empty());

    world.advance_time(one_second);

    assert!(world.fire_timers(node_id).len() == 1);
}

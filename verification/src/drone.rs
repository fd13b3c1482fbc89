use vstd::prelude::*;

verus! {

pub const DRONE_MAX_BATTERY: i32 = 30;
pub const LIGHT_BATTERY_COST: i32 = 5;
pub const DRONE_BATTERY_REGEN: i32 = 1;

/// The battery, light and life state of a drone, and its scan-carrying statistics.
#[derive(Debug, Clone, Copy)]
pub struct DroneStatus {
    pub battery: i32,
    pub light_switch: bool,
    pub light_on: bool,
    pub dying: bool,
    pub dead: bool,
    pub did_report: bool,
    pub turns_spent_with_scan: i32,
    pub max_turns_spent_with_scan: i32,
}

/// The battery level after one turn without light: one unit more, capped at the maximum.
pub open spec fn recharged(battery: i32) -> i32 {
    if battery < DRONE_MAX_BATTERY {
        if battery + DRONE_BATTERY_REGEN >= DRONE_MAX_BATTERY {
            DRONE_MAX_BATTERY
        } else {
            (battery + DRONE_BATTERY_REGEN) as i32
        }
    } else {
        DRONE_MAX_BATTERY
    }
}

impl DroneStatus {
    /// A live drone with a full battery and its light off.
    pub fn new() -> (r: DroneStatus)
        ensures
            r.battery == DRONE_MAX_BATTERY,
            !r.light_switch && !r.light_on && !r.dying && !r.dead && !r.did_report,
            r.turns_spent_with_scan == 0 && r.max_turns_spent_with_scan == 0,
    {
        DroneStatus {
            battery: DRONE_MAX_BATTERY,
            light_switch: false,
            light_on: false,
            dying: false,
            dead: false,
            did_report: false,
            turns_spent_with_scan: 0,
            max_turns_spent_with_scan: 0,
        }
    }

    pub fn is_light_on(&self) -> (r: bool)
        ensures
            r == self.light_on,
    {
        self.light_on
    }

    pub fn is_dead_or_dying(&self) -> (r: bool)
        ensures
            r == (self.dying || self.dead),
    {
        self.dying || self.dead
    }

    pub fn drain_battery(&mut self)
        requires
            old(self).battery >= i32::MIN + LIGHT_BATTERY_COST,
        ensures
            *final(self) == (DroneStatus { battery: (old(self).battery - LIGHT_BATTERY_COST) as i32, ..*old(self) }),
    {
        self.battery -= LIGHT_BATTERY_COST;
    }

    pub fn recharge_battery(&mut self)
        ensures
            *final(self) == (DroneStatus { battery: recharged(old(self).battery), ..*old(self) }),
    {
        if self.battery < DRONE_MAX_BATTERY {
            self.battery += DRONE_BATTERY_REGEN;
        }
        if self.battery >= DRONE_MAX_BATTERY {
            self.battery = DRONE_MAX_BATTERY;
        }
    }

    /// The turn's battery update: a dead drone's light goes off; otherwise the light is on when
    /// switched on and the battery holds enough for it, and the battery drains for a lit light
    /// and recharges otherwise. A battery within `0 ..= DRONE_MAX_BATTERY` stays within it.
    pub fn do_battery(&mut self)
        requires
            old(self).battery >= i32::MIN + LIGHT_BATTERY_COST,
        ensures
            old(self).dead ==> *final(self) == (DroneStatus { light_on: false, ..*old(self) }),
            !old(self).dead ==> final(self).light_on == (old(self).light_switch && old(self).battery >= LIGHT_BATTERY_COST),
            !old(self).dead ==> final(self).battery == if final(self).light_on {
                old(self).battery - LIGHT_BATTERY_COST
            } else {
                recharged(old(self).battery) as int
            },
            !old(self).dead ==> (DroneStatus { light_on: false, battery: 0, ..*final(self) }) == (DroneStatus {
                light_on: false,
                battery: 0,
                ..*old(self)
            }),
            0 <= old(self).battery <= DRONE_MAX_BATTERY ==> 0 <= final(self).battery <= DRONE_MAX_BATTERY,
    {
        if self.dead {
            self.light_on = false;
            return;
        }
        if self.light_switch && self.battery >= LIGHT_BATTERY_COST && !self.dead {
            self.light_on = true;
        } else {
            self.light_on = false;
        }
        if self.is_light_on() {
            self.drain_battery();
        } else {
            self.recharge_battery();
        }
    }

    /// The turn's upkeep: a dying drone is dead now, and a dead drone back at the surface
    /// (`at_surface`) lives again; the count of turns spent carrying scans (`carries_scans`)
    /// and its maximum are kept up to date.
    pub fn upkeep(&mut self, at_surface: bool, carries_scans: bool)
        requires
            carries_scans ==> old(self).turns_spent_with_scan < i32::MAX,
        ensures
            final(self).dying == false,
            final(self).dead == if old(self).dying {
                true
            } else {
                old(self).dead && !at_surface
            },
            final(self).turns_spent_with_scan == if carries_scans {
                old(self).turns_spent_with_scan + 1
            } else {
                0
            },
            final(self).max_turns_spent_with_scan == if carries_scans && old(self).turns_spent_with_scan + 1
                > old(self).max_turns_spent_with_scan {
                old(self).turns_spent_with_scan + 1
            } else {
                old(self).max_turns_spent_with_scan as int
            },
            final(self).battery == old(self).battery,
            final(self).light_switch == old(self).light_switch,
            final(self).light_on == old(self).light_on,
            final(self).did_report == old(self).did_report,
    {
        if self.dying {
            self.dead = true;
            self.dying = false;
        } else if self.dead && at_surface {
            self.dead = false;
        }
        if !carries_scans {
            self.turns_spent_with_scan = 0;
        } else {
            self.turns_spent_with_scan += 1;
            if self.turns_spent_with_scan > self.max_turns_spent_with_scan {
                self.max_turns_spent_with_scan = self.turns_spent_with_scan;
            }
        }
    }
}

} // verus!

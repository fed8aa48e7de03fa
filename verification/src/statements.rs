//! The SQL statements of the history database.

use vstd::prelude::*;

verus! {

/// Makes the tables, where they are not there yet. Readings are kept for a limited
/// time; the snapshots of the health, one for each month, are kept for good.
pub const CREATE_TABLES: &'static str = "CREATE TABLE IF NOT EXISTS readings (
    id INTEGER PRIMARY KEY AUTOINCREMENT,
    timestamp TEXT NOT NULL,
    status TEXT NOT NULL,
    capacity REAL,
    voltage REAL,
    current_a REAL,
    power_w REAL,
    temperature_c REAL,
    charge_now_ah REAL
);
CREATE INDEX IF NOT EXISTS idx_time ON readings(timestamp);
CREATE TABLE IF NOT EXISTS health_snapshots (
    month TEXT PRIMARY KEY,
    timestamp TEXT NOT NULL,
    health_percent REAL NOT NULL
);";

/// Deletes the readings from before `?1`.
pub const DELETE_BEFORE: &'static str = "DELETE FROM readings WHERE timestamp < ?1";

/// Deletes all readings.
pub const DELETE_ALL: &'static str = "DELETE FROM readings";

/// Counts all readings.
pub const COUNT_ALL: &'static str = "SELECT COUNT(*) FROM readings";

/// Counts the readings from `?1` on.
pub const COUNT_SINCE: &'static str = "SELECT COUNT(*) FROM readings WHERE timestamp >= ?1";

/// Adds a reading; the values stand in the order of the columns.
pub const INSERT_READING: &'static str = "INSERT INTO readings
 (timestamp, status, capacity, voltage, current_a, power_w, temperature_c, charge_now_ah)
 VALUES (?1, ?2, ?3, ?4, ?5, ?6, ?7, ?8)";

/// Sets the health snapshot of the month `?1`.
pub const SET_SNAPSHOT: &'static str = "INSERT INTO health_snapshots (month, timestamp, health_percent)
 VALUES (?1, ?2, ?3)
 ON CONFLICT(month) DO UPDATE SET timestamp = excluded.timestamp, health_percent = excluded.health_percent";

/// The readings from `?1` on, oldest first.
pub const ROWS_SINCE: &'static str = "SELECT timestamp, voltage, current_a, power_w, temperature_c, capacity, status
 FROM readings
 WHERE timestamp >= ?1
 ORDER BY timestamp ASC";

/// The readings from `?1` on, averaged over spans of `?2` seconds, oldest first. A
/// span without readings gives no row.
pub const SPANS_SINCE: &'static str = "SELECT
    MAX(timestamp),
    AVG(voltage), AVG(current_a), AVG(power_w),
    AVG(temperature_c), AVG(capacity),
    status
 FROM (
     SELECT
         CAST((CAST(strftime('%s', timestamp) AS INTEGER)
               - CAST(strftime('%s', ?1) AS INTEGER)) / ?2 AS INTEGER) AS bucket,
         timestamp, voltage, current_a, power_w, temperature_c, capacity, status
     FROM readings
     WHERE timestamp >= ?1
 )
 GROUP BY bucket
 ORDER BY bucket ASC";

/// The charge from `?1` on in bins of `?2` seconds: for each status of a bin a row
/// with the mean charge of the whole bin and the number of readings that have the
/// status. Of one bin, the status that was read last comes last.
pub const BINS_SINCE: &'static str = "SELECT bin, mean, status, COUNT(*)
 FROM (
     SELECT bin, AVG(capacity) OVER (PARTITION BY bin) AS mean, timestamp, status
     FROM (
         SELECT
             CAST((CAST(strftime('%s', timestamp) AS INTEGER)
                   - CAST(strftime('%s', ?1) AS INTEGER)) / ?2 AS INTEGER) AS bin,
             timestamp, capacity, status
         FROM readings
         WHERE timestamp >= ?1 AND capacity IS NOT NULL
     )
 )
 GROUP BY bin, status
 ORDER BY bin ASC, MAX(timestamp) ASC, status ASC";

/// The mean power from `?1` on.
pub const MEAN_POWER_SINCE: &'static str = "SELECT AVG(power_w) FROM readings WHERE timestamp >= ?1 AND power_w IS NOT NULL";

/// The mean power from `?1` on while discharging.
pub const MEAN_DISCHARGE_SINCE: &'static str = "SELECT AVG(power_w) FROM readings WHERE timestamp >= ?1 AND power_w IS NOT NULL AND status = 'Discharging'";

/// The mean power while discharging, for each hour of the day.
pub const DRAIN_BY_HOUR: &'static str = "SELECT CAST(strftime('%H', timestamp) AS INTEGER) AS hr, AVG(power_w)
 FROM readings
 WHERE status = 'Discharging' AND power_w IS NOT NULL
 GROUP BY hr";

/// All health snapshots.
pub const SNAPSHOTS: &'static str = "SELECT month, health_percent FROM health_snapshots";

} // verus!

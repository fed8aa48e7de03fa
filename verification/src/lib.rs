//! Battery telemetry for Linux laptops.
//!
//! The library reads no files and runs no commands: its functions take what was read
//! or what a command gave back, and return what follows from it.
//!
//! * [`reader`] makes readings from the files of a battery, [`devices`] and [`usbpd`]
//!   do so for other power supplies; [`sysfs`] holds such files.
//! * [`alerts`] watches readings, [`history`] stores and charts them with the SQL in
//!   [`statements`], [`reports`] writes them out, [`dashboard`] and [`crate::format`]
//!   show them.
//! * [`charging`], [`power_profile`], [`battery_saver`], [`rapl`], [`autostart`],
//!   [`processes`] and [`settings`] are about the controls of the machine and of the
//!   program; [`command`] holds what a command gave back.
//! * [`double`] is binary floating point by its bits, over whole numbers of any size
//!   in [`natural`]; [`decimal`] reads and writes it, and [`steps`] is about equal steps
//!   in it. [`text`], [`html`], [`path`] and [`rank`] are about characters, reports of
//!   PowerTop, paths and sorting.

pub mod alerts;
pub mod autostart;
pub mod battery_saver;
pub mod charging;
pub mod command;
pub mod dashboard;
pub mod decimal;
pub mod devices;
pub mod double;
pub mod format;
pub mod history;
pub mod html;
pub mod natural;
pub mod path;
pub mod power_profile;
pub mod processes;
pub mod rank;
pub mod rapl;
pub mod reader;
pub mod reports;
pub mod settings;
pub mod statements;
pub mod steps;
pub mod sysfs;
pub mod text;
pub mod usbpd;

pub use crate::alerts::{BatteryAlertDetector, Severity};
pub use crate::devices::{read_peripheral_devices, PeripheralDevice};
pub use crate::double::Double;
pub use crate::format::{
    aggregate_bins, color_for_status, format_tray_label, split_on_gaps, IntervalBin,
};
pub use crate::history::{default_db_path, GraphData, DEFAULT_RETENTION_DAYS};
pub use crate::processes::{
    read_top_processes_by_cpu, run_powertop_scan, CpuProcess, PowerTopProcess,
};
pub use crate::rapl::{rapl_available, read_package_power_watts};
pub use crate::reader::{find_battery_paths, BatteryReader, Reading};
pub use crate::reports::{
    delete_report, generate_csv_report, list_reports, reports_dir, ReportEntry, ReportPeriod,
};
pub use crate::usbpd::{read_active_usb_pd, UsbPdInfo};

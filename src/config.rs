//! Configuration records: logging, audio, behaviour, and the chime rules.

use vstd::prelude::*;

verus! {

/// Where and how the log is written.
#[derive(Debug, Clone)]
pub struct LoggingConfig {
    pub level: String,
    pub directory: String,
    pub rotate: bool,
    pub max_files: u32,
}

/// Playback settings; `global_volume` is a percentage.
#[derive(Debug, Clone)]
pub struct AudioConfig {
    pub global_volume: u8,
}

/// A chime rule: a recurrence expression and the sound file it plays.
#[derive(Debug, Clone)]
pub struct Schedule {
    pub id: String,
    pub schedule_type: String,
    pub cron: String,
    pub file: String,
    pub enabled: bool,
}

/// What a rule holds, as plain values.
pub struct ScheduleView {
    pub id: Seq<char>,
    pub schedule_type: Seq<char>,
    pub cron: Seq<char>,
    pub file: Seq<char>,
    pub enabled: bool,
}

impl View for Schedule {
    type V = ScheduleView;

    open spec fn view(&self) -> ScheduleView {
        ScheduleView {
            id: self.id@,
            schedule_type: self.schedule_type@,
            cron: self.cron@,
            file: self.file@,
            enabled: self.enabled,
        }
    }
}

impl Schedule {
    /// A copy of this rule.
    pub fn duplicate(&self) -> (r: Schedule)
        ensures
            r@ == self@,
    {
        Schedule {
            id: self.id.clone(),
            schedule_type: self.schedule_type.clone(),
            cron: self.cron.clone(),
            file: self.file.clone(),
            enabled: self.enabled,
        }
    }
}

/// Retry settings for playback.
#[derive(Debug, Clone)]
pub struct BehaviorConfig {
    pub retry_on_fail: u32,
    pub retry_delay_seconds: u64,
}

/// The whole configuration.
#[derive(Debug, Clone)]
pub struct Config {
    pub logging: LoggingConfig,
    pub audio: AudioConfig,
    pub schedules: Vec<Schedule>,
    pub behavior: BehaviorConfig,
}

/// The default rule: a chime at minute 0 of every hour.
pub open spec fn is_default_schedule(s: ScheduleView) -> bool {
    &&& s.id == "hourly_chime"@
    &&& s.schedule_type == "cron"@
    &&& s.cron == "0 * * * *"@
    &&& s.file == "./audios/chime.wav"@
    &&& s.enabled
}

/// `c` is the default configuration with its logs under `dir`.
pub open spec fn is_default_config(c: Config, dir: Seq<char>) -> bool {
    &&& c.logging.level@ == "info"@
    &&& c.logging.directory@ == dir
    &&& c.logging.rotate
    &&& c.logging.max_files == 7
    &&& c.audio.global_volume == 80
    &&& c.schedules@.len() == 1
    &&& is_default_schedule(c.schedules@[0]@)
    &&& c.behavior.retry_on_fail == 0
    &&& c.behavior.retry_delay_seconds == 5
}

impl Config {
    /// The default configuration, writing logs under `log_directory`.
    pub fn default_in(log_directory: String) -> (r: Config)
        ensures
            is_default_config(r, log_directory@),
    {
        let mut schedules: Vec<Schedule> = Vec::new();
        schedules.push(
            Schedule {
                id: "hourly_chime".to_owned(),
                schedule_type: "cron".to_owned(),
                cron: "0 * * * *".to_owned(),
                file: "./audios/chime.wav".to_owned(),
                enabled: true,
            },
        );
        Config {
            logging: LoggingConfig {
                level: "info".to_owned(),
                directory: log_directory,
                rotate: true,
                max_files: 7,
            },
            audio: AudioConfig { global_volume: 80 },
            schedules,
            behavior: BehaviorConfig { retry_on_fail: 0, retry_delay_seconds: 5 },
        }
    }

    /// The configuration to run with: the one read from disk when there is
    /// one, else the default, together with whether it must be written out.
    pub fn load_or_create_default(existing: Option<Config>, log_directory: String) -> (r: (
        Config,
        bool,
    ))
        ensures
            existing matches Some(c) ==> r.0 == c && !r.1,
            existing is None ==> is_default_config(r.0, log_directory@) && r.1,
    {
        match existing {
            Some(c) => (c, false),
            None => (Config::default_in(log_directory), true),
        }
    }
}

} // verus!

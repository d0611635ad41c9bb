use electrolysis::logger::{LogLevel, Logger, NullLogger};

struct TestLogger {
    level: LogLevel,
    messages: std::cell::RefCell<Vec<(LogLevel, String)>>,
}

impl TestLogger {
    fn new(level: LogLevel) -> Self {
        Self {
            level,
            messages: std::cell::RefCell::new(vec![]),
        }
    }
    fn push(&self, level: LogLevel, msg: &str) {
        if self.level >= level {
            self.messages.borrow_mut().push((level, msg.to_string()));
        }
    }
    fn messages(&self) -> Vec<(LogLevel, String)> {
        self.messages.borrow().clone()
    }
}

impl Logger for TestLogger {
    fn info(&self, msg: &str) {
        self.push(LogLevel::Normal, msg);
    }
    fn verbose(&self, msg: &str) {
        self.push(LogLevel::Verbose, msg);
    }
    fn warn(&self, msg: &str) {
        self.push(LogLevel::Normal, msg);
    }
    fn error(&self, msg: &str) {
        self.push(LogLevel::Quiet, msg);
    }
}

#[test]
fn log_level_ordering() {
    assert!(LogLevel::Quiet < LogLevel::Normal);
    assert!(LogLevel::Normal < LogLevel::Verbose);
}

#[test]
fn quiet_level_blocks_info_and_warn() {
    let logger = TestLogger::new(LogLevel::Quiet);
    logger.info("hello");
    logger.warn("careful");
    assert!(logger.messages().is_empty());
}

#[test]
fn quiet_level_allows_errors() {
    let logger = TestLogger::new(LogLevel::Quiet);
    logger.error("boom");
    assert_eq!(logger.messages().len(), 1);
    assert_eq!(logger.messages()[0].1, "boom");
}

#[test]
fn normal_level_blocks_verbose() {
    let logger = TestLogger::new(LogLevel::Normal);
    logger.verbose("debug");
    assert!(logger.messages().is_empty());
}

#[test]
fn normal_level_allows_info_and_warn() {
    let logger = TestLogger::new(LogLevel::Normal);
    logger.info("hello");
    logger.warn("careful");
    assert_eq!(logger.messages().len(), 2);
}

#[test]
fn verbose_level_allows_everything() {
    let logger = TestLogger::new(LogLevel::Verbose);
    logger.info("hello");
    logger.verbose("debug");
    logger.warn("careful");
    logger.error("boom");
    assert_eq!(logger.messages().len(), 4);
}

#[test]
fn null_logger_never_logs() {
    let logger = NullLogger;
    logger.info("hello");
    logger.verbose("debug");
    logger.warn("careful");
    logger.error("boom");
    // Nothing to see: it does not panic.
}

#[test]
fn default_log_level_is_normal() {
    assert_eq!(LogLevel::default(), LogLevel::Normal);
}

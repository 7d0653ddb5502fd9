use abstraktor::logger::{LogLevel, Logger, NoticeKind};

#[test]
fn test_logger_creation() {
    let logger = Logger::new(LogLevel::Debug);
    assert_eq!(logger.level(), LogLevel::Debug);

    let logger = Logger::new(LogLevel::Info);
    assert_eq!(logger.level(), LogLevel::Info);

    let logger = Logger::new(LogLevel::Error);
    assert_eq!(logger.level(), LogLevel::Error);

    let logger = Logger::new(LogLevel::Quiet);
    assert_eq!(logger.level(), LogLevel::Quiet);
}

#[test]
fn test_logger_default() {
    let logger = Logger::default();
    assert_eq!(logger.level(), LogLevel::Info);
}

#[test]
fn test_debug_level_shows_all() {
    let logger = Logger::new(LogLevel::Debug);
    logger.debug("test debug");
    logger.log("test log");
    logger.success("test success");
    logger.warning("test warning");
    logger.intro();
    logger.outro();
    logger.error("test error");
}

#[test]
fn test_info_level_hides_debug() {
    let logger = Logger::new(LogLevel::Info);
    logger.debug("test debug");
    logger.log("test log");
    logger.success("test success");
    logger.warning("test warning");
    logger.intro();
    logger.outro();
    logger.error("test error");
}

#[test]
fn test_error_level_hides_info() {
    let logger = Logger::new(LogLevel::Error);
    logger.debug("test debug");
    logger.log("test log");
    logger.success("test success");
    logger.warning("test warning");
    logger.intro();
    logger.outro();
    logger.error("test error");
}

#[test]
fn test_quiet_level_hides_all() {
    let logger = Logger::new(LogLevel::Quiet);
    logger.debug("test debug");
    logger.log("test log");
    logger.success("test success");
    logger.warning("test warning");
    logger.intro();
    logger.outro();
    logger.error("test error");
}

#[test]
fn test_log_level_variants() {
    assert_eq!(LogLevel::Debug, LogLevel::Debug);
    assert_ne!(LogLevel::Debug, LogLevel::Info);
    assert_ne!(LogLevel::Debug, LogLevel::Error);
    assert_ne!(LogLevel::Debug, LogLevel::Quiet);
}

#[test]
fn test_display_trait_with_strings() {
    let logger = Logger::new(LogLevel::Debug);
    logger.debug("string literal");
    logger.log(String::from("owned string"));
    logger.success(format!("formatted {}", "string"));
    logger.warning(&"string reference");
}

#[test]
fn test_display_trait_with_numbers() {
    let logger = Logger::new(LogLevel::Debug);
    logger.debug(42);
    logger.log(3.14);
    logger.success(100u64);
}

fn shown(level: LogLevel) -> Vec<NoticeKind> {
    let logger = Logger::new(level);
    let notices = vec![
        logger.debug("d"),
        logger.log("l"),
        logger.success("s"),
        logger.warning("w"),
        logger.intro(),
        logger.outro(),
        logger.error("e"),
    ];
    notices.into_iter().flatten().map(|n| n.kind).collect()
}

#[test]
fn debug_level_lets_every_notice_through() {
    assert_eq!(
        shown(LogLevel::Debug),
        vec![
            NoticeKind::Debug,
            NoticeKind::Step,
            NoticeKind::Success,
            NoticeKind::Warning,
            NoticeKind::Intro,
            NoticeKind::Outro,
            NoticeKind::Error,
        ]
    );
}

#[test]
fn info_level_holds_debug_back() {
    assert_eq!(
        shown(LogLevel::Info),
        vec![
            NoticeKind::Step,
            NoticeKind::Success,
            NoticeKind::Warning,
            NoticeKind::Intro,
            NoticeKind::Outro,
            NoticeKind::Error,
        ]
    );
}

#[test]
fn error_level_keeps_banner_and_errors() {
    assert_eq!(
        shown(LogLevel::Error),
        vec![NoticeKind::Intro, NoticeKind::Outro, NoticeKind::Error]
    );
}

#[test]
fn quiet_level_shows_nothing() {
    assert_eq!(shown(LogLevel::Quiet), Vec::<NoticeKind>::new());
}

#[test]
fn notices_carry_the_rendered_message() {
    let logger = Logger::new(LogLevel::Debug);
    assert_eq!(logger.log(42).unwrap().text, "42");
    assert_eq!(logger.error("boom").unwrap().text, "boom");
    assert_eq!(logger.intro().unwrap().text, "Abstraktor - v1.0.0");
    assert_eq!(logger.outro().unwrap().text, "Execution successful!");
}

use kernel_std::log::{level_name, to_level, to_level_bytes, Delivery, Logger};

#[test]
fn level_names() {
    assert_eq!(level_name(0), "CRITICAL");
    assert_eq!(level_name(1), "ERROR");
    assert_eq!(level_name(2), "WARN");
    assert_eq!(level_name(3), "INFO");
    assert_eq!(level_name(4), "DEBUG");
    assert_eq!(level_name(5), "TRACE");
    assert_eq!(level_name(6), "");
}

#[test]
fn levels_from_names() {
    assert_eq!(to_level("any"), Ok(None));
    assert_eq!(to_level("ANY"), Ok(None));
    assert_eq!(to_level("critical"), Ok(Some(0)));
    assert_eq!(to_level("ERROR"), Ok(Some(1)));
    assert_eq!(to_level("warn"), Ok(Some(2)));
    assert_eq!(to_level("INFO"), Ok(Some(3)));
    assert_eq!(to_level("debug"), Ok(Some(4)));
    assert_eq!(to_level("TRACE"), Ok(Some(5)));
    assert_eq!(to_level("Trace"), Err(()));
    assert_eq!(to_level(""), Err(()));
    assert_eq!(to_level_bytes(b"info"), Ok(Some(3)));
}

#[test]
fn level_names_read_back() {
    for level in 0..6usize {
        assert_eq!(to_level(level_name(level)), Ok(Some(level)));
    }
}

#[test]
fn logger_filters_and_counts_lost_messages() {
    let mut logger = Logger::new(Some(2));
    assert!(!logger.has_output());
    // above the limit
    assert_eq!(logger.log(3), Delivery::Filtered);
    // nowhere to write
    assert_eq!(logger.log(1), Delivery::Lost);
    assert_eq!(logger.log(0), Delivery::Lost);
    // the reserve writer reports the lost messages first
    logger.set_reserve(true);
    assert_eq!(logger.log(2), Delivery::Reserve { lost: 2 });
    assert_eq!(logger.log(2), Delivery::Reserve { lost: 0 });
    logger.set_reserve(false);
    assert_eq!(logger.reserve_log(), Delivery::Lost);
    // the output takes precedence
    logger.set_output(true);
    assert!(logger.has_output());
    assert_eq!(logger.log(0), Delivery::Output { lost: 1 });
    // a filtered level change leaves the limit
    assert!(logger.set_level(Some(5), Some("paging")));
    assert_eq!(logger.log(4), Delivery::Filtered);
    assert!(logger.set_level(None, None));
    assert_eq!(logger.log(5), Delivery::Output { lost: 0 });
}

#[test]
fn suppressed_calls_are_warned_of_every_other_time() {
    assert_eq!(kernel_std::log::suppression_notice(0, false), (false, false));
    assert_eq!(kernel_std::log::suppression_notice(0, true), (false, true));
    assert_eq!(kernel_std::log::suppression_notice(3, false), (true, true));
    assert_eq!(kernel_std::log::suppression_notice(3, true), (false, false));
}

#[test]
fn user_logger_hands_back_the_previous_level() {
    let mut logger = kernel_std::user_log::UserLogger::new(Some(0));
    assert!(logger.passes(0));
    assert!(!logger.passes(1));
    assert_eq!(logger.set_level(Some(3)), Some(0));
    assert!(logger.passes(3));
    assert!(!logger.passes(4));
    assert_eq!(logger.set_level(None), Some(3));
    assert!(logger.passes(5));
    assert_eq!(logger.set_level(Some(1)), None);
}

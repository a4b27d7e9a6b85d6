use arc_dev_kit::text::{decimal_string, hex_string};
use arc_dev_kit::{ArcError, SkipReason};

#[test]
fn decimal_text_of_integers() {
    assert_eq!(decimal_string(0), "0");
    assert_eq!(decimal_string(7), "7");
    assert_eq!(decimal_string(10), "10");
    assert_eq!(decimal_string(1234567890), "1234567890");
    assert_eq!(decimal_string(u64::MAX), "18446744073709551615");
}

#[test]
fn hex_text_of_integers() {
    assert_eq!(hex_string(0), "0");
    assert_eq!(hex_string(15), "F");
    assert_eq!(hex_string(16), "10");
    assert_eq!(hex_string(0xDEAD_BEEF), "DEADBEEF");
    assert_eq!(hex_string(u32::MAX), "FFFFFFFF");
}

#[test]
fn constructors_fill_their_variants() {
    match ArcError::os_api(5, "access denied") {
        ArcError::OsApi { code, message } => {
            assert_eq!(code, 5);
            assert_eq!(message, "access denied");
        }
        other => panic!("unexpected {:?}", other),
    }
    match ArcError::parse("json", "unexpected end") {
        ArcError::ParseError { kind, detail } => {
            assert_eq!(kind, "json");
            assert_eq!(detail, "unexpected end");
        }
        other => panic!("unexpected {:?}", other),
    }
    match ArcError::timeout("scan", 30) {
        ArcError::Timeout { operation, duration_secs } => {
            assert_eq!(operation, "scan");
            assert_eq!(duration_secs, 30);
        }
        other => panic!("unexpected {:?}", other),
    }
}

#[test]
fn only_skipped_errors_are_skipped() {
    assert!(ArcError::Skipped(SkipReason::Disabled).is_skipped());
    assert!(ArcError::Skipped(SkipReason::Other("x".into())).is_skipped());
    assert!(!ArcError::QueueClosed.is_skipped());
    assert!(!ArcError::PermissionDenied.is_skipped());
    assert!(!ArcError::timeout("scan", 1).is_skipped());
}

#[test]
fn messages_of_every_variant() {
    assert_eq!(ArcError::PermissionDenied.message(), "权限不足/Permission Denied");
    assert_eq!(ArcError::NotFound("cfg.toml".into()).message(), "未找到资源: cfg.toml");
    assert_eq!(ArcError::os_api(0x1F, "bad handle").message(), "OS API 错误 (0x1F): bad handle");
    assert_eq!(ArcError::os_api(0, "ok").message(), "OS API 错误 (0x0): ok");
    assert_eq!(ArcError::parse("json", "eof").message(), "解析错误 (json): eof");
    assert_eq!(
        ArcError::Skipped(SkipReason::RequiresAdmin).message(),
        "操作已跳过: RequiresAdmin"
    );
    assert_eq!(ArcError::timeout("scan", 30).message(), "操作超时 (30s): scan");
    assert_eq!(ArcError::Serialization("bad".into()).message(), "序列化错误: bad");
    assert_eq!(ArcError::QueueClosed.message(), "任务队列已关闭/Task queue is closed");
    assert_eq!(ArcError::Other("boom".into()).message(), "错误: boom");
}

#[test]
fn skip_reasons_print_as_debug() {
    for reason in [
        SkipReason::Disabled,
        SkipReason::RequiresAdmin,
        SkipReason::UnsupportedOS,
        SkipReason::DependencyMissing("lib\"x\"\n".into()),
        SkipReason::FilteredOut,
        SkipReason::Other("why".into()),
    ] {
        assert_eq!(reason.debug_text(), format!("{:?}", reason));
    }
    assert_eq!(
        SkipReason::DependencyMissing("a\"b".into()).debug_text(),
        "DependencyMissing(\"a\\\"b\")"
    );
}

#[test]
fn io_errors_convert_and_keep_the_system_text() {
    let io = std::io::Error::new(std::io::ErrorKind::Other, "disk gone");
    let e: ArcError = io.into();
    assert!(matches!(e, ArcError::Io(_)));
    assert_eq!(e.message(), "I/O 错误: disk gone");
}

#[test]
fn json_errors_become_serialization_errors() {
    let bad = serde_json::from_str::<u32>("not json").unwrap_err();
    let text = bad.to_string();
    let e: ArcError = bad.into();
    match e {
        ArcError::Serialization(msg) => assert_eq!(msg, text),
        other => panic!("unexpected {:?}", other),
    }
}

#[test]
fn io_message_prefixes_the_system_text() {
    assert_eq!(arc_dev_kit::error::io_message("disk gone"), "I/O 错误: disk gone");
    assert_eq!(arc_dev_kit::error::io_message(""), "I/O 错误: ");
}

use rind::login::{device_path, session_params, tty_name};

#[test]
fn tty_name_is_the_last_path_segment() {
    assert_eq!(tty_name("/dev/tty3"), "tty3");
    assert_eq!(tty_name("tty1"), "tty1");
    assert_eq!(tty_name("/dev/"), "");
    assert_eq!(tty_name(""), "");
}

#[test]
fn device_path_adds_dev_prefix_once() {
    assert_eq!(device_path("tty2"), "/dev/tty2");
    assert_eq!(device_path("/dev/pts/0"), "/dev/pts/0");
    assert_eq!(device_path("/devx"), "/dev//devx");
}

#[test]
fn session_params_from_login_payload() {
    assert_eq!(
        session_params(r#"{"tty":"tty2","seat":"seat9","id":"alice"}"#, None, None),
        ("/dev/tty2".to_string(), "alice".to_string())
    );
    assert_eq!(
        session_params(r#"{"tty":5,"seat":"/dev/tty4"}"#, Some("/dev/tty7".to_string()), Some("bob".to_string())),
        ("/dev/tty4".to_string(), "unknown".to_string())
    );
    assert_eq!(
        session_params("[1,2]", Some("/dev/tty7".to_string()), None),
        ("/dev/tty1".to_string(), "unknown".to_string())
    );
}

#[test]
fn session_params_without_json_use_the_environment() {
    assert_eq!(
        session_params("", Some("/dev/tty7".to_string()), Some("bob".to_string())),
        ("/dev/tty7".to_string(), "bob".to_string())
    );
    assert_eq!(session_params("not json", None, None), ("/dev/tty1".to_string(), "unknown".to_string()));
}

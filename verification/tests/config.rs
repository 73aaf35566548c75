use pkcs12cracker::args::Args;
use pkcs12cracker::args::validate_certificate_path;
use pkcs12cracker::args::validate_threads_count;
use pkcs12cracker::charset::LOWER_ALPHABET;
use pkcs12cracker::charset::build_charset;
use pkcs12cracker::orchestrator::Mode;
use pkcs12cracker::orchestrator::select_mode;
use pkcs12cracker::types::CrackError;
use pkcs12cracker::types::CrackResult;

#[test]
fn test_validate_certificate_path() {
    let path = String::from("test.p12");
    assert!(validate_certificate_path(&path).is_ok());
}

#[test]
fn test_validate_certificate_path_invalid() {
    let path = String::from("test");
    assert!(validate_certificate_path(&path).is_err());
}

#[test]
fn test_build_charset() {
    let args = Args {
        char_sets: Some("aA".to_string()),
        specific_chars: Some("@#".to_string()),
        ..Default::default()
    };
    let charset = build_charset(&args).unwrap();
    assert_eq!(
        charset,
        "abcdefghijklmnopqrstuvwxyzABCDEFGHIJKLMNOPQRSTUVWXYZ@#"
    );
}

#[test]
fn test_build_charset_default() {
    let args = Args::default();
    let charset = build_charset(&args).unwrap();
    assert_eq!(charset, LOWER_ALPHABET);
}

#[test]
fn test_build_charset_specific_chars() {
    let args = Args {
        specific_chars: Some("@#".to_string()),
        ..Default::default()
    };
    let charset = build_charset(&args).unwrap();
    assert!(charset.contains("@"));
    assert!(charset.contains("#"));
}

#[test]
fn test_build_charset_all() {
    let args = Args {
        char_sets: Some("x".to_string()),
        ..Default::default()
    };
    let charset = build_charset(&args).unwrap();
    assert_eq!(charset, "abcdefghijklmnopqrstuvwxyzABCDEFGHIJKLMNOPQRSTUVWXYZ0123456789!\"#$%&'()*+,-./:;<=>?@[\\]^_`{|}~ ");
}

#[test]
fn test_build_charset_with_umlauts() {
    let args = Args {
        char_sets: Some("aA".to_string()),
        specific_chars: Some("äöüß".to_string()),
        ..Default::default()
    };
    let charset = build_charset(&args).unwrap();
    assert_eq!(
        charset,
        "abcdefghijklmnopqrstuvwxyzABCDEFGHIJKLMNOPQRSTUVWXYZäöüß"
    );
}

#[test]
fn certificate_path_looks_at_the_file_name_only() {
    assert!(validate_certificate_path("certs/archive.pfx").is_ok());
    assert!(validate_certificate_path("my.certs/archive").is_err());
    assert!(validate_certificate_path("..").is_err());
    assert!(validate_certificate_path("").is_err());
}

#[test]
fn thread_count_above_one_is_taken_as_is() {
    assert_eq!(validate_threads_count(5), 5);
    assert!(validate_threads_count(0) >= 1);
    assert!(validate_threads_count(1) >= 1);
}

#[test]
fn no_mode_is_a_configuration_error_before_any_attempt() {
    let args = Args::default();
    let result = CrackResult::new();
    let mode = select_mode(&args);
    assert!(matches!(mode, Err(CrackError::ConfigurationError)));
    assert_eq!(result.get_attempts(), 0);
}

#[test]
fn two_modes_are_a_configuration_error() {
    let args = Args {
        pattern: Some("a@".to_string()),
        bruteforce_flag: true,
        ..Default::default()
    };
    assert!(matches!(
        select_mode(&args),
        Err(CrackError::ConfigurationError)
    ));
}

#[test]
fn one_mode_is_selected() {
    let args = Args {
        dictionary_path: Some("words.txt".to_string()),
        delimiter: "\n".to_string(),
        ..Default::default()
    };
    match select_mode(&args) {
        Ok(Mode::Dictionary { path, delimiter }) => {
            assert_eq!(path, "words.txt");
            assert_eq!(delimiter, "\n");
        }
        _ => panic!("expected the dictionary mode"),
    }
}

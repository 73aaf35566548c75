use openssl::asn1::Asn1Time;
use openssl::bn::BigNum;
use openssl::hash::MessageDigest;
use openssl::pkcs12::Pkcs12;
use openssl::pkey::PKey;
use openssl::rsa::Rsa;
use openssl::x509::X509;
use openssl::x509::X509NameBuilder;

use pkcs12cracker::container::Container;
use pkcs12cracker::crackers::bruteforce::BruteforceCracker;
use pkcs12cracker::crackers::check_password;
use pkcs12cracker::crackers::dictionary::DictionaryCracker;
use pkcs12cracker::crackers::pattern::PatternCracker;
use pkcs12cracker::types::CrackResult;

fn make_container_der(password: &str) -> Vec<u8> {
    let rsa = Rsa::generate(2048).unwrap();
    let pkey = PKey::from_rsa(rsa).unwrap();
    let mut name = X509NameBuilder::new().unwrap();
    name.append_entry_by_text("CN", "test").unwrap();
    let name = name.build();
    let mut builder = X509::builder().unwrap();
    builder.set_version(2).unwrap();
    let serial = BigNum::from_u32(1).unwrap().to_asn1_integer().unwrap();
    builder.set_serial_number(&serial).unwrap();
    builder.set_subject_name(&name).unwrap();
    builder.set_issuer_name(&name).unwrap();
    builder.set_pubkey(&pkey).unwrap();
    builder
        .set_not_before(&Asn1Time::days_from_now(0).unwrap())
        .unwrap();
    builder
        .set_not_after(&Asn1Time::days_from_now(1).unwrap())
        .unwrap();
    builder.sign(&pkey, MessageDigest::sha256()).unwrap();
    let cert = builder.build();
    let p12 = Pkcs12::builder()
        .name("test")
        .pkey(&pkey)
        .cert(&cert)
        .build2(password)
        .unwrap();
    p12.to_der().unwrap()
}

fn chars(s: &str) -> Vec<char> {
    s.chars().collect()
}

#[test]
fn oracle_is_deterministic_for_one_container_and_candidate() {
    let der = make_container_der("secret1");
    let container = Container::from_der(&der).unwrap();
    let mut result = CrackResult::new();

    let right = chars("secret1");
    let wrong = chars("nope");
    let first = check_password(&container, &wrong, &mut result);
    let second = check_password(&container, &wrong, &mut result);
    assert_eq!(first, second);
    assert!(!first);

    let third = check_password(&container, &right, &mut result);
    let fourth = check_password(&container, &right, &mut result);
    assert_eq!(third, fourth);
    assert!(third);
    // The repeated hit did not overwrite the first recorded password.
    let (password, _) = result.snapshot();
    assert_eq!(password, Some("secret1".to_string()));
}

#[test]
fn garbage_bytes_are_a_format_error() {
    let der = vec![0u8, 1, 2, 3, 4];
    assert!(Container::from_der(&der).is_err());
}

#[test]
fn dictionary_attack_finds_the_password() {
    let der = make_container_der("abc123");
    let container = Container::from_der(&der).unwrap();
    let mut result = CrackResult::new();

    let cracker = DictionaryCracker::new("xyz\nabc123\nqqq".to_string(), "\n".to_string());
    cracker.crack(&container, &mut result).unwrap();

    let (password, attempts) = result.snapshot();
    assert_eq!(password, Some("abc123".to_string()));
    assert!(attempts >= 2);
}

#[test]
fn pattern_attack_finds_the_password() {
    let der = make_container_der("Pba");
    let container = Container::from_der(&der).unwrap();
    let mut result = CrackResult::new();

    let cracker = PatternCracker::new("P@@".to_string(), "ab".to_string(), '@');
    cracker.crack(&container, &mut result).unwrap();

    let (password, attempts) = result.snapshot();
    assert_eq!(password, Some("Pba".to_string()));
    assert!(attempts <= 4);
}

#[test]
fn pattern_attack_indexed_path_finds_the_password() {
    let der = make_container_der("abba");
    let container = Container::from_der(&der).unwrap();
    let mut result = CrackResult::new();

    let cracker = PatternCracker::new("@@@@".to_string(), "ab".to_string(), '@');
    cracker.crack(&container, &mut result).unwrap();

    let (password, attempts) = result.snapshot();
    assert_eq!(password, Some("abba".to_string()));
    assert!(attempts <= 16);
}

#[test]
fn brute_force_finds_the_password_within_the_space() {
    let der = make_container_der("ba");
    let container = Container::from_der(&der).unwrap();
    let mut result = CrackResult::new();

    let cracker = BruteforceCracker::new(1, 2, "ab".to_string());
    cracker.crack(&container, &mut result).unwrap();

    let (password, attempts) = result.snapshot();
    assert_eq!(password, Some("ba".to_string()));
    assert!(attempts <= 6);
}

#[test]
fn exhausted_search_reports_no_password_as_a_normal_outcome() {
    let der = make_container_der("zzz9");
    let container = Container::from_der(&der).unwrap();
    let mut result = CrackResult::new();

    let cracker = BruteforceCracker::new(1, 2, "ab".to_string());
    cracker.crack(&container, &mut result).unwrap();

    let (password, attempts) = result.snapshot();
    assert!(password.is_none());
    assert_eq!(attempts, 6);
}

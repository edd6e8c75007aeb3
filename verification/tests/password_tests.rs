use hashassin_core::hashing::HashError;
use hashassin_core::password::{
    generate_password, generate_passwords, read_passwords, PasswordError,
};
use hashassin_core::rainbow::{check_passwords, RainbowError};
use hashassin_core::text::{decimal, decimal_sum};

#[test]
fn generated_password_is_printable_ascii() {
    for length in [0usize, 1, 4, 200] {
        let password = generate_password(length);
        assert_eq!(password.len(), length);
        assert!(password.bytes().all(|b| (32..=126).contains(&b)));
    }
}

#[test]
fn generated_passwords_have_the_asked_count_and_length() {
    let passwords = generate_passwords(50, 12).unwrap();
    assert_eq!(passwords.len(), 50);
    for password in &passwords {
        assert_eq!(password.chars().count(), 12);
        assert!(password.bytes().all(|b| (32..=126).contains(&b)));
    }
    assert!(passwords.iter().any(|p| p != &passwords[0]));
}

#[test]
fn generation_refuses_zero_count_and_zero_length() {
    assert_eq!(generate_passwords(0, 4), Err(PasswordError::InvalidCount));
    assert_eq!(generate_passwords(0, 0), Err(PasswordError::InvalidCount));
    assert_eq!(generate_passwords(3, 0), Err(PasswordError::InvalidLength(0)));
}

#[test]
fn lines_of_one_length_are_accepted() {
    let lines = vec!["abcd".to_string(), "efgh".to_string(), "\u{e9}xy".to_string()];
    assert_eq!(read_passwords(lines.clone()), Ok(lines));
    assert_eq!(read_passwords(Vec::new()), Ok(Vec::new()));
    assert_eq!(read_passwords(vec![String::new()]), Ok(vec![String::new()]));
}

#[test]
fn first_line_of_another_length_is_named() {
    let lines = vec!["abcd".to_string(), "efgh".to_string(), "ijk".to_string(), "l".to_string()];
    assert_eq!(read_passwords(lines), Err(PasswordError::InvalidLength(3)));
    let lines = vec!["abcd".to_string(), "\u{e9}fgh".to_string()];
    assert_eq!(read_passwords(lines), Err(PasswordError::InvalidLength(2)));
}

#[test]
fn passwords_are_checked_for_a_shared_length() {
    assert!(matches!(check_passwords(&Vec::new()), Err(RainbowError::EmptyInput)));
    let list = vec!["abcd".to_string(), "efg".to_string()];
    assert!(matches!(check_passwords(&list), Err(RainbowError::VaryingLengths)));
    let list = vec!["abcd".to_string(), "\u{e9}fg".to_string()];
    assert_eq!(check_passwords(&list).unwrap(), 4);
    assert_eq!(check_passwords(&vec![String::new()]).unwrap(), 0);
}

#[test]
fn numbers_in_decimal() {
    assert_eq!(decimal(0), "0");
    assert_eq!(decimal(7), "7");
    assert_eq!(decimal(10), "10");
    assert_eq!(decimal(1234567890), "1234567890");
    assert_eq!(decimal(u128::MAX), "340282366920938463463374607431768211455");
    assert_eq!(decimal_sum(0, 0), "0");
    assert_eq!(decimal_sum(5, 4), "9");
    assert_eq!(decimal_sum(5, 5), "10");
    assert_eq!(decimal_sum(u128::MAX, u128::MAX), "680564733841876926926749214863536422910");
    assert_eq!(decimal_sum(u128::MAX, 1), "340282366920938463463374607431768211456");
}

#[test]
fn errors_say_what_went_wrong() {
    assert_eq!(PasswordError::InvalidLength(12).to_string(), "Invalid password length at line 12");
    assert_eq!(PasswordError::InvalidCount.to_string(), "Invalid password count");
    assert_eq!(HashError::InvalidAlgorithm.to_string(), "Invalid algorithm");
    assert_eq!(HashError::Scrypt("bad".to_string()).to_string(), "Scrypt error: bad");
    assert_eq!(
        HashError::Password(PasswordError::InvalidCount).to_string(),
        "Password error: Invalid password count"
    );
    let all = [
        (RainbowError::Password(PasswordError::InvalidLength(0)), "Password error: Invalid password length at line 0"),
        (RainbowError::EmptyInput, "Empty input file"),
        (RainbowError::VaryingLengths, "Passwords have varying lengths"),
        (RainbowError::InvalidMagic, "Invalid magic number"),
        (RainbowError::InvalidHeader, "Invalid header"),
        (RainbowError::InvalidAlgorithm, "Invalid algorithm"),
        (RainbowError::InvalidChainData, "Invalid chain data"),
        (RainbowError::AlgorithmMismatch, "Algorithm mismatch"),
        (RainbowError::PasswordLengthMismatch, "Password length mismatch"),
        (RainbowError::NoPasswordsFound, "No passwords found"),
        (RainbowError::UnicodeError("x".to_string()), "Unicode conversion error: x"),
        (RainbowError::NumericError("y".to_string()), "Invalid numeric value: y"),
    ];
    for (error, text) in all {
        assert_eq!(error.to_string(), text);
    }
}

use cranker_expense::idents::account_id_valid;
use cranker_expense::idents::check_account_ids;
use cranker_expense::idents::signature_valid;

#[test]
fn well_formed_account_address_is_accepted() {
    // 32 base58 ones decode to the 32-byte zero key (the system
    // program's address).
    let addr = "11111111111111111111111111111111".to_string();
    assert!(account_id_valid(&addr));
    let spl_token = "TokenkegQfeZyiNwAJbNbGKPFXCWuBvf9Ss623VQ5DA".to_string();
    assert!(account_id_valid(&spl_token));
}

#[test]
fn malformed_account_address_is_rejected() {
    assert!(!account_id_valid(&"not-base58!".to_string()));
    assert!(!account_id_valid(&"".to_string()));
    // Valid base58 but the wrong size for an address.
    assert!(!account_id_valid(&"abc".to_string()));
}

#[test]
fn well_formed_signature_is_accepted() {
    // 64 base58 ones decode to the 64-byte zero signature.
    let sig = "1".repeat(64);
    assert!(signature_valid(&sig));
}

#[test]
fn malformed_signature_is_rejected() {
    assert!(!signature_valid(&"abc".to_string()));
    assert!(!signature_valid(&"0OIl".to_string()));
    // An account-sized string is too short for a signature.
    assert!(!signature_valid(&"11111111111111111111111111111111".to_string()));
}

#[test]
fn first_malformed_address_aborts_the_run() {
    let good = "11111111111111111111111111111111".to_string();
    let bad = "???".to_string();
    assert_eq!(check_account_ids(&vec![good.clone(), good.clone()]), Ok(()));
    assert_eq!(check_account_ids(&vec![good.clone(), bad.clone(), good.clone()]), Err(1));
    assert_eq!(check_account_ids(&Vec::new()), Ok(()));
}

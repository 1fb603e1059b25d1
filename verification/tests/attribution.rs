use cranker_expense::attribution::extract_program_ids;
use cranker_expense::attribution::DecodedMessage;
use cranker_expense::attribution::ProgramInvocation;
use cranker_expense::fetch::build_fee_record;

fn keys() -> Vec<String> {
    vec!["Alpha".to_string(), "Beta".to_string(), "Gamma".to_string()]
}

#[test]
fn parsed_form_mixing_resolved_and_index_entries() {
    // A parsed-form list mixing resolved identities and key-table
    // indices resolves per instruction, in order.
    let msg = DecodedMessage::Parsed {
        instructions: vec![
            ProgramInvocation::Resolved("Alpha".to_string()),
            ProgramInvocation::IndexRef(2),
            ProgramInvocation::Resolved("Beta".to_string()),
        ],
        account_keys: keys(),
    };
    let ids = extract_program_ids(&msg);
    assert_eq!(ids, vec!["Alpha", "Gamma", "Beta"]);
}

#[test]
fn raw_form_resolves_through_key_table() {
    let msg = DecodedMessage::Raw { program_indices: vec![0, 2, 0], account_keys: keys() };
    let ids = extract_program_ids(&msg);
    assert_eq!(ids, vec!["Alpha", "Gamma", "Alpha"]);
}

#[test]
fn parsed_and_raw_agree_on_equivalent_instructions() {
    // The same two logical instructions, once in parsed form (one entry
    // resolved, one an index) and once in raw form: identical output.
    let parsed = DecodedMessage::Parsed {
        instructions: vec![
            ProgramInvocation::Resolved("Beta".to_string()),
            ProgramInvocation::IndexRef(0),
        ],
        account_keys: keys(),
    };
    let raw = DecodedMessage::Raw { program_indices: vec![1, 0], account_keys: keys() };
    assert_eq!(extract_program_ids(&parsed), extract_program_ids(&raw));
}

#[test]
fn out_of_range_index_is_skipped_not_fatal() {
    let parsed = DecodedMessage::Parsed {
        instructions: vec![
            ProgramInvocation::IndexRef(7),
            ProgramInvocation::Resolved("Alpha".to_string()),
        ],
        account_keys: keys(),
    };
    assert_eq!(extract_program_ids(&parsed), vec!["Alpha"]);
    let raw = DecodedMessage::Raw { program_indices: vec![3, 1], account_keys: keys() };
    assert_eq!(extract_program_ids(&raw), vec!["Beta"]);
}

#[test]
fn unrecognized_shape_yields_no_identifiers() {
    assert_eq!(extract_program_ids(&DecodedMessage::Unrecognized).len(), 0);
}

#[test]
fn record_needs_metadata_and_identifiers() {
    let msg = DecodedMessage::Raw { program_indices: vec![0], account_keys: keys() };
    // No metadata: dropped even though the message attributes fine.
    assert!(build_fee_record(None, &msg).is_none());
    // Metadata and identifiers: kept with the fee and the id list.
    let rec = build_fee_record(Some(5000), &msg).unwrap();
    assert_eq!(rec.fee, 5000);
    assert_eq!(rec.program_ids, vec!["Alpha"]);
    // No identifiers: dropped, same as a failed fetch.
    assert!(build_fee_record(Some(5000), &DecodedMessage::Unrecognized).is_none());
    let empty = DecodedMessage::Raw { program_indices: Vec::new(), account_keys: keys() };
    assert!(build_fee_record(Some(5000), &empty).is_none());
}

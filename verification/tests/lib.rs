use bitcoin::locktime;
use bitcoin::script::{self};
use bitcoin::{opcodes, ScriptBuf, Transaction, TxOut};
use runestone::{Error, Runestone};

#[test]
fn lib_deciphering_transaction_with_no_outputs_returns_none() {
    assert_eq!(
        Runestone::decipher(&Transaction {
            input: Vec::new(),
            output: Vec::new(),
            lock_time: locktime::absolute::LockTime::ZERO,
            version: 0,
        }),
        Ok(None)
    );
}

#[test]
fn lib_deciphering_transaction_with_non_op_return_output_returns_none() {
    assert_eq!(
        Runestone::decipher(&Transaction {
            input: Vec::new(),
            output: vec![TxOut {
                script_pubkey: script::Builder::new().push_slice([]).into_script(),
                value: 0
            }],
            lock_time: locktime::absolute::LockTime::ZERO,
            version: 0,
        }),
        Ok(None)
    );
}

#[test]
fn lib_deciphering_transaction_with_bare_op_return_returns_none() {
    assert_eq!(
        Runestone::decipher(&Transaction {
            input: Vec::new(),
            output: vec![TxOut {
                script_pubkey: script::Builder::new()
                    .push_opcode(opcodes::all::OP_RETURN)
                    .into_script(),
                value: 0
            }],
            lock_time: locktime::absolute::LockTime::ZERO,
            version: 0,
        }),
        Ok(None)
    );
}

#[test]
fn lib_deciphering_transaction_with_non_matching_op_return_returns_none() {
    assert_eq!(
        Runestone::decipher(&Transaction {
            input: Vec::new(),
            output: vec![TxOut {
                script_pubkey: script::Builder::new()
                    .push_opcode(opcodes::all::OP_RETURN)
                    .push_slice(b"FOOO")
                    .into_script(),
                value: 0
            }],
            lock_time: locktime::absolute::LockTime::ZERO,
            version: 0,
        }),
        Ok(None)
    );
}

#[test]
fn lib_deciphering_valid_runestone_with_invalid_script_returns_script_error() {
    let result = Runestone::decipher(&Transaction {
        input: Vec::new(),
        output: vec![TxOut {
            script_pubkey: ScriptBuf::from_bytes(vec![opcodes::all::OP_PUSHBYTES_4.to_u8()]),
            value: 0,
        }],
        lock_time: locktime::absolute::LockTime::ZERO,
        version: 0,
    });

    match result {
        Ok(_) => panic!("expected error"),
        Err(Error::Script(_)) => {}
        Err(err) => panic!("unexpected error: {err:?}"),
    }
}

#[test]
fn lib_deciphering_valid_runestone_with_invalid_script_postfix_returns_script_error() {
    let mut script_pubkey = script::Builder::new()
        .push_opcode(opcodes::all::OP_RETURN)
        .push_slice(b"RUNE_TEST")
        .into_script()
        .into_bytes();

    script_pubkey.push(opcodes::all::OP_PUSHBYTES_4.to_u8());

    let result = Runestone::decipher(&Transaction {
        input: Vec::new(),
        output: vec![TxOut {
            script_pubkey: ScriptBuf::from_bytes(script_pubkey),
            value: 0,
        }],
        lock_time: locktime::absolute::LockTime::ZERO,
        version: 0,
    });

    match result {
        Ok(_) => panic!("expected error"),
        Err(Error::Script(_)) => {}
        Err(err) => panic!("unexpected error: {err:?}"),
    }
}

#[test]
fn lib_deciphering_empty_runestone_is_successful() {
    assert_eq!(
        Runestone::decipher(&Transaction {
            input: Vec::new(),
            output: vec![TxOut {
                script_pubkey: script::Builder::new()
                    .push_opcode(opcodes::all::OP_RETURN)
                    .push_slice(b"RUNE_TEST")
                    .into_script(),
                value: 0
            }],
            lock_time: locktime::absolute::LockTime::ZERO,
            version: 0,
        }),
        Ok(Some(Runestone {
            directives: Vec::new(),
            decimals: None,
            symbol: None,
        }))
    );
}

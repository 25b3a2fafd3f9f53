use pos_core::transaction::{AccountMeta, CompiledInstruction, Instruction, Message, MessageHeader, Pubkey};

#[test]
fn valida_payload_spl_transfer() {
    // 1. Setup: the public keys
    let source = Pubkey::from_str("TokenkegQfeZyiNwAJbNbGKPFXCWuBvf9Ss623VQ5DA").unwrap();
    let dest = Pubkey::from_str("11111111111111111111111111111111").unwrap();
    let owner = Pubkey::from_str("11111111111111111111111111111111").unwrap();

    // 2. A charge of 10 USDC (10_000_000 in base units)
    let amount: u64 = 10_000_000;
    let mint = Pubkey::from_str("EPjFWdd5AufqSSqeM2qN1xzybapC8G4wEGGkZwyTDt1v").unwrap(); // USDC mint
    let instruction = Instruction::new_spl_transfer(source, mint, dest, owner, amount, 6).unwrap();
    // 3. opcode 12 (TransferChecked) + amount little-endian (8 bytes) + decimals (1 byte)
    let mut expected_data = vec![12u8];
    expected_data.extend_from_slice(&[0x80, 0x96, 0x98, 0x00, 0x00, 0x00, 0x00, 0x00]);
    expected_data.push(6u8);

    assert_eq!(
        instruction.data,
        expected_data,
        "Falha crítica: O alinhamento dos bytes da instrução não bate com o esperado pela SVM"
    );
}

#[test]
fn valida_estrutura_message() {
    let dummy_pubkey = Pubkey::from_str("11111111111111111111111111111111").unwrap();

    let header = MessageHeader {
        num_required_signatures: 1,
        num_readonly_signed_accounts: 0,
        num_readonly_unsigned_accounts: 1,
    };

    let compiled_instruction = CompiledInstruction {
        program_id_index: 1,
        accounts: vec![0],
        data: vec![3, 0, 0, 0],
    };

    let message = Message {
        header,
        account_keys: vec![dummy_pubkey.clone(), dummy_pubkey.clone()],
        recent_blockhash: dummy_pubkey,
        instructions: vec![compiled_instruction],
    };

    assert_eq!(message.account_keys.len(), 2, "O array de chaves mestre deve conter os elementos passados");
    assert_eq!(message.instructions[0].program_id_index, 1, "O ponteiro de índice deve estar correto");
}

#[test]
fn valida_compilacao_e_serializacao_completa() {
    let source = Pubkey::from_str("TokenkegQfeZyiNwAJbNbGKPFXCWuBvf9Ss623VQ5DA").unwrap();
    let dest = Pubkey::from_str("11111111111111111111111111111111").unwrap();
    let owner = Pubkey::from_str("11111111111111111111111111111111").unwrap();
    let recent_blockhash = Pubkey::from_str("11111111111111111111111111111111").unwrap();

    let mint = Pubkey::from_str("EPjFWdd5AufqSSqeM2qN1xzybapC8G4wEGGkZwyTDt1v").unwrap();
    let instruction = Instruction::new_spl_transfer(source, mint, dest, owner.clone(), 10_000_000, 6).unwrap();

    let message = Message::new(&[instruction], &owner, recent_blockhash);

    let base58_payload = message.serialize_to_base58().expect("Falha ao serializar com Borsh");

    assert!(base58_payload.len() > 50, "O payload Base58 deve ser uma string longa");
    println!("🎉 Payload Final do POS gerado com sucesso: {}", base58_payload);
}

fn key(byte: u8) -> Pubkey {
    Pubkey([byte; 32])
}

fn token_program() -> Pubkey {
    Pubkey::from_str("TokenkegQfeZyiNwAJbNbGKPFXCWuBvf9Ss623VQ5DA").unwrap()
}

#[test]
fn system_program_id_is_all_zero_bytes() {
    assert_eq!(Pubkey::from_str("11111111111111111111111111111111").unwrap(), Pubkey([0u8; 32]));
}

#[test]
fn pubkey_rejects_wrong_length() {
    // "2" decodes to a single byte
    let err = Pubkey::from_str("2").unwrap_err();
    assert_eq!(err, "Tamanho inválido para uma Pubkey da Solana");
}

#[test]
fn pubkey_rejects_invalid_base58() {
    // '0' is not in the Base58 alphabet
    let err = Pubkey::from_str("0abc").unwrap_err();
    assert!(err.starts_with("Erro ao decodificar Base58: "), "{}", err);
    assert!(err.len() > "Erro ao decodificar Base58: ".len());
}

#[test]
fn pubkey_base58_text_round_trips() {
    let text = "EPjFWdd5AufqSSqeM2qN1xzybapC8G4wEGGkZwyTDt1v";
    let k = Pubkey::from_str(text).unwrap();
    assert_eq!(format!("{:?}", k), text);
    assert_eq!(Pubkey::from_str(&format!("{:?}", key(3))).unwrap(), key(3));
}

#[test]
fn same_key_compares_bytes() {
    assert!(key(7).same_key(&key(7)));
    let mut b = [7u8; 32];
    b[31] = 8;
    assert!(!key(7).same_key(&Pubkey(b)));
}

#[test]
fn advance_nonce_instruction_layout() {
    let nonce = key(1);
    let authority = key(2);
    let ix = Instruction::new_advance_nonce(nonce, authority).unwrap();
    assert_eq!(ix.program_id, key(0));
    assert_eq!(ix.data, vec![4, 0, 0, 0]);
    assert_eq!(ix.accounts.len(), 3);
    assert_eq!(ix.accounts[0].pubkey, nonce);
    assert!(!ix.accounts[0].is_signer && ix.accounts[0].is_writable);
    assert_eq!(
        ix.accounts[1].pubkey,
        Pubkey::from_str("SysvarRecentB1ockHashes11111111111111111111").unwrap()
    );
    assert!(!ix.accounts[1].is_signer && !ix.accounts[1].is_writable);
    assert_eq!(ix.accounts[2].pubkey, authority);
    assert!(ix.accounts[2].is_signer && !ix.accounts[2].is_writable);
}

#[test]
fn spl_transfer_accounts_and_amount_bytes() {
    let ix = Instruction::new_spl_transfer(key(1), key(2), key(3), key(4), u64::MAX - 1, 9).unwrap();
    assert_eq!(ix.program_id, token_program());
    let metas: Vec<(Pubkey, bool, bool)> =
        ix.accounts.iter().map(|a| (a.pubkey, a.is_signer, a.is_writable)).collect();
    assert_eq!(
        metas,
        vec![(key(1), false, true), (key(2), false, false), (key(3), false, true), (key(4), true, false)]
    );
    assert_eq!(ix.data, vec![12, 0xfe, 0xff, 0xff, 0xff, 0xff, 0xff, 0xff, 0xff, 9]);
    // the amount reads back from its little-endian bytes
    let mut le = [0u8; 8];
    le.copy_from_slice(&ix.data[1..9]);
    assert_eq!(u64::from_le_bytes(le), u64::MAX - 1);
}

fn ix(program: Pubkey, accounts: &[(Pubkey, bool, bool)], data: &[u8]) -> Instruction {
    Instruction {
        program_id: program,
        accounts: accounts
            .iter()
            .map(|&(pubkey, is_signer, is_writable)| AccountMeta { pubkey, is_signer, is_writable })
            .collect(),
        data: data.to_vec(),
    }
}

#[test]
fn message_orders_keys_in_four_groups() {
    let payer = key(9);
    // key(1): signer read-only; key(2): writable; key(3): read-only;
    // key(4): signer, made writable by a later instruction; key(5): program
    let first = ix(key(5), &[(key(3), false, false), (key(1), true, false), (key(4), true, false)], &[1]);
    let second = ix(key(5), &[(key(2), false, true), (key(4), false, true), (payer, false, false)], &[2, 2]);
    let m = Message::new(&[first, second], &payer, key(8));
    // read-only keys in order of first appearance: the program before key(3)
    assert_eq!(m.account_keys, vec![key(9), key(4), key(1), key(2), key(5), key(3)]);
    assert_eq!(m.header.num_required_signatures, 3);
    assert_eq!(m.header.num_readonly_signed_accounts, 1);
    assert_eq!(m.header.num_readonly_unsigned_accounts, 2);
    assert_eq!(m.recent_blockhash, key(8));
    assert_eq!(m.instructions.len(), 2);
    assert_eq!(m.instructions[0].program_id_index, 4);
    assert_eq!(m.instructions[0].accounts, vec![5, 2, 1]);
    assert_eq!(m.instructions[0].data, vec![1]);
    assert_eq!(m.instructions[1].program_id_index, 4);
    assert_eq!(m.instructions[1].accounts, vec![3, 1, 0]);
    assert_eq!(m.instructions[1].data, vec![2, 2]);
}

#[test]
fn message_with_no_instructions_holds_only_the_payer() {
    let m = Message::new(&[], &key(3), key(4));
    assert_eq!(m.account_keys, vec![key(3)]);
    assert_eq!(m.header.num_required_signatures, 1);
    assert_eq!(m.header.num_readonly_signed_accounts, 0);
    assert_eq!(m.header.num_readonly_unsigned_accounts, 0);
    assert!(m.instructions.is_empty());
}

#[test]
fn compiled_positions_resolve_to_the_instruction_keys() {
    let payer = key(9);
    let a = ix(key(5), &[(key(3), false, false), (key(1), true, true)], &[]);
    let b = ix(key(6), &[(key(7), false, true), (key(3), true, false)], &[0]);
    let ixs = [a, b];
    let m = Message::new(&ixs, &payer, key(0));
    for (c, orig) in m.instructions.iter().zip(ixs.iter()) {
        assert_eq!(m.account_keys[c.program_id_index as usize], orig.program_id);
        for (p, meta) in c.accounts.iter().zip(orig.accounts.iter()) {
            assert_eq!(m.account_keys[*p as usize], meta.pubkey);
        }
    }
    // every key once
    for i in 0..m.account_keys.len() {
        for j in 0..m.account_keys.len() {
            if i != j {
                assert_ne!(m.account_keys[i], m.account_keys[j]);
            }
        }
    }
}

#[test]
fn header_describes_privileges() {
    let payer = key(9);
    let a = ix(key(5), &[(key(1), true, false), (key(2), false, true), (key(3), true, true)], &[]);
    let m = Message::new(&[a], &payer, key(0));
    // signer+writable: 9, 3; signer read-only: 1; writable: 2; read-only: 5
    assert_eq!(m.account_keys, vec![key(9), key(3), key(1), key(2), key(5)]);
    let h = m.header;
    let required = h.num_required_signatures as usize;
    let total = m.account_keys.len();
    for i in 0..total {
        let signer = i < required;
        let writable = if signer {
            i < required - h.num_readonly_signed_accounts as usize
        } else {
            i < total - h.num_readonly_unsigned_accounts as usize
        };
        let k = m.account_keys[i];
        let expected = if k == key(9) || k == key(3) {
            (true, true)
        } else if k == key(1) {
            (true, false)
        } else if k == key(2) {
            (false, true)
        } else {
            (false, false)
        };
        assert_eq!((signer, writable), expected, "key at {}", i);
    }
}

#[test]
fn serialize_writes_the_wire_format() {
    let owner = key(0);
    let token = token_program();
    let mint = Pubkey::from_str("EPjFWdd5AufqSSqeM2qN1xzybapC8G4wEGGkZwyTDt1v").unwrap();
    let transfer = Instruction::new_spl_transfer(token, mint, owner, owner, 10_000_000, 6).unwrap();
    let m = Message::new(&[transfer], &owner, key(0));
    assert_eq!(m.account_keys, vec![owner, token, mint]);

    let mut expected = vec![1u8, 0, 1, 3];
    expected.extend_from_slice(&owner.0);
    expected.extend_from_slice(&token.0);
    expected.extend_from_slice(&mint.0);
    expected.extend_from_slice(&key(0).0);
    expected.extend_from_slice(&[1, 1, 4, 1, 2, 0, 0, 10]);
    expected.extend_from_slice(&[12, 0x80, 0x96, 0x98, 0, 0, 0, 0, 0, 6]);
    let bytes = m.serialize();
    assert_eq!(bytes, expected);
    assert_eq!(m.serialize_to_base58().unwrap(), bs58::encode(&expected).into_string());
}

#[test]
fn serialize_uses_two_byte_compact_lengths() {
    // 130 data bytes: the length takes two bytes, 0x82 0x01
    let data: Vec<u8> = (0..130u32).map(|i| i as u8).collect();
    let m = Message::new(&[ix(key(5), &[], &data)], &key(1), key(2));
    let bytes = m.serialize();
    // header(3) + count(1) + 2 keys + blockhash + ix count(1) + program(1) + accounts len(1)
    let at = 3 + 1 + 64 + 32 + 1 + 1 + 1;
    assert_eq!(&bytes[at..at + 2], &[0x82, 0x01]);
    assert_eq!(&bytes[at + 2..], &data[..]);
    assert_eq!(bytes.len(), at + 2 + 130);
}

#[test]
fn serialize_counts_three_hundred_keys_in_two_bytes() {
    // 300 accounts, a payer and a program: the key count 302 is 0xae 0x02, and positions wrap to one byte
    let accounts: Vec<(Pubkey, bool, bool)> = (0..300u32)
        .map(|i| {
            let mut b = [0u8; 32];
            b[0] = (i % 256) as u8;
            b[1] = (i / 256) as u8 + 1;
            (Pubkey(b), false, true)
        })
        .collect();
    let payer = key(200);
    let m = Message::new(&[ix(key(201), &accounts, &[])], &payer, key(0));
    assert_eq!(m.account_keys.len(), 302);
    let bytes = m.serialize();
    assert_eq!(&bytes[3..5], &[0xae, 0x02]);
    // the program is the last key (read-only, not signing): position 301 wraps to 45
    assert_eq!(m.instructions[0].program_id_index, (301usize % 256) as u8);
}

#[test]
fn debug_shows_base58() {
    let k = Pubkey::from_str("EPjFWdd5AufqSSqeM2qN1xzybapC8G4wEGGkZwyTDt1v").unwrap();
    assert_eq!(format!("{:?}", k), "EPjFWdd5AufqSSqeM2qN1xzybapC8G4wEGGkZwyTDt1v");
    assert_eq!(format!("{:?}", key(0)), "11111111111111111111111111111111");
}

#[test]
fn pubkey_from_decoded_checks_the_length() {
    assert_eq!(Pubkey::from_decoded(Ok(vec![5u8; 32])), Ok(key(5)));
    assert_eq!(
        Pubkey::from_decoded(Ok(vec![5u8; 31])).unwrap_err(),
        "Tamanho inválido para uma Pubkey da Solana"
    );
    assert_eq!(
        Pubkey::from_decoded(Err("bad".to_string())).unwrap_err(),
        "Erro ao decodificar Base58: bad"
    );
}

//! Solana transaction messages: public keys, instructions, the compilation of
//! instructions into a message with its accounts in the four protocol groups,
//! and the message's wire format (compact-u16 lengths, not borsh).

use vstd::prelude::*;
use crate::base58::{base58_decoded, base58_encoded, bs58_decode, bs58_encode, decoded_view};

verus! {

// ---------------------------------------------------------------------------
// compact-u16 ("shortvec") lengths
// ---------------------------------------------------------------------------

/// The compact-u16 encoding of `n`: seven bits per byte, least significant
/// group first, the high bit set on every byte but the last.
pub open spec fn shortvec_encoding(n: nat) -> Seq<u8>
    decreases n,
{
    if n < 128 {
        seq![n as u8]
    } else {
        seq![((n % 128) + 128) as u8] + shortvec_encoding(n / 128)
    }
}

/// Reads one compact-u16 value from the front of `bytes`: the value and the
/// number of bytes it took, or `None` when the bytes end inside it.
pub open spec fn shortvec_decode(bytes: Seq<u8>) -> Option<(nat, nat)>
    decreases bytes.len(),
{
    if bytes.len() == 0 {
        None
    } else if bytes[0] < 128 {
        Some((bytes[0] as nat, 1nat))
    } else {
        match shortvec_decode(bytes.drop_first()) {
            Some((v, k)) => Some((((bytes[0] - 128) + 128 * v) as nat, k + 1)),
            None => None,
        }
    }
}

/// Appends the compact-u16 encoding of `len` to `buf`.
fn write_shortvec_len(buf: &mut Vec<u8>, len: usize)
    ensures
        final(buf)@ == old(buf)@ + shortvec_encoding(len as nat),
{
    let ghost start = buf@;
    let ghost total = len;
    let mut len: usize = len;
    loop
        invariant_except_break
            buf@ + shortvec_encoding(len as nat) == start + shortvec_encoding(total as nat),
        ensures
            buf@ == start + shortvec_encoding(total as nat),
        decreases len,
    {
        let mut byte: u8 = (len & 0x7f) as u8;
        let ghost before = len;
        assert(len & 0x7f == len % 128) by (bit_vector);
        assert(len >> 7 == len / 128) by (bit_vector);
        len = len >> 7;
        if len != 0 {
            assert(byte < 128 ==> (byte | 0x80) == byte + 128) by (bit_vector);
            byte = byte | 0x80;
            buf.push(byte);
            assert(shortvec_encoding(before as nat) == seq![byte] + shortvec_encoding(len as nat));
            assert(buf@ + shortvec_encoding(len as nat) == start + shortvec_encoding(total as nat));
        } else {
            buf.push(byte);
            assert(shortvec_encoding(before as nat) == seq![byte]);
            break;
        }
    }
}

// ---------------------------------------------------------------------------
// Public keys
// ---------------------------------------------------------------------------

/// The exact 32 bytes of a Solana public key.
#[derive(Clone, Copy, PartialEq, Eq)]
pub struct Pubkey(pub [u8; 32]);

#[verifier::external_type_specification]
#[verifier::external_body]
pub struct ExFormatter<'a>(core::fmt::Formatter<'a>);

#[verifier::external_type_specification]
#[verifier::external_body]
pub struct ExFmtError(core::fmt::Error);

impl core::fmt::Debug for Pubkey {
    /// Writes the key as its Base58 text (see `bs58_encode`); nothing is
    /// claimed of the outcome.
    #[verifier::external_body]
    fn fmt(&self, f: &mut core::fmt::Formatter<'_>) -> core::fmt::Result {
        write!(f, "{}", bs58_encode(&self.0))
    }
}

impl View for Pubkey {
    type V = Seq<u8>;

    open spec fn view(&self) -> Seq<u8> {
        self.0@
    }
}

/// What a Base58 decoding outcome gives as a public key: the bytes when
/// there are exactly 32 of them, else the error message.
pub open spec fn pubkey_from_decoding(d: Result<Seq<u8>, Seq<char>>) -> Result<Seq<u8>, Seq<char>> {
    match d {
        Err(e) => Err("Erro ao decodificar Base58: "@ + e),
        Ok(b) => if b.len() == 32 {
            Ok(b)
        } else {
            Err("Tamanho inválido para uma Pubkey da Solana"@)
        },
    }
}

/// What reading a public key from Base58 text gives: the 32 decoded bytes,
/// or the error message.
pub open spec fn pubkey_from_base58(s: Seq<char>) -> Result<Seq<u8>, Seq<char>> {
    pubkey_from_decoding(base58_decoded(s))
}

/// A parsed public key seen through the views of its parts.
pub open spec fn parsed_view(r: Result<Pubkey, String>) -> Result<Seq<u8>, Seq<char>> {
    match r {
        Ok(k) => Ok(k@),
        Err(e) => Err(e@),
    }
}

impl Pubkey {
    /// Reads a public key from its Base58 text: it must decode to exactly
    /// 32 bytes.
    pub fn from_str(s: &str) -> (r: Result<Pubkey, String>)
        ensures
            parsed_view(r) == pubkey_from_base58(s@),
    {
        Pubkey::from_decoded(bs58_decode(s))
    }

    /// The public key for the outcome of decoding its Base58 text: the bytes
    /// must be exactly 32; a decoding error is reported with its text.
    pub fn from_decoded(decoded: Result<Vec<u8>, String>) -> (r: Result<Pubkey, String>)
        ensures
            parsed_view(r) == pubkey_from_decoding(decoded_view(decoded)),
    {
        let decoded = match decoded {
            Ok(v) => v,
            Err(e) => {
                let mut msg = String::from_str("Erro ao decodificar Base58: ");
                msg.append(e.as_str());
                return Err(msg);
            },
        };
        if decoded.len() != 32 {
            return Err(String::from_str("Tamanho inválido para uma Pubkey da Solana"));
        }
        let mut bytes = [0u8; 32];
        let mut i: usize = 0;
        while i < 32
            invariant
                0 <= i <= 32,
                decoded@.len() == 32,
                forall|j: int| 0 <= j < i ==> bytes@[j] == decoded@[j],
            decreases 32 - i,
        {
            bytes[i] = decoded[i];
            i = i + 1;
        }
        assert(bytes@ =~= decoded@);
        Ok(Pubkey(bytes))
    }

    /// Whether two keys hold the same bytes.
    pub fn same_key(&self, other: &Pubkey) -> (r: bool)
        ensures
            r == (self@ == other@),
    {
        let mut i: usize = 0;
        while i < 32
            invariant
                0 <= i <= 32,
                forall|j: int| 0 <= j < i ==> self@[j] == other@[j],
            decreases 32 - i,
        {
            if self.0[i] != other.0[i] {
                return false;
            }
            i = i + 1;
        }
        assert(self@ =~= other@);
        true
    }
}

// ---------------------------------------------------------------------------
// Instructions
// ---------------------------------------------------------------------------

/// An instruction that a Solana program can execute.
#[derive(Debug, Clone)]
pub struct Instruction {
    /// The program that executes the instruction.
    pub program_id: Pubkey,
    /// The accounts that the instruction reads or writes.
    pub accounts: Vec<AccountMeta>,
    /// The opcode and the parameters, packed in bytes.
    pub data: Vec<u8>,
}

/// An account named by an instruction, with its privileges.
#[derive(Debug, Clone, Copy)]
pub struct AccountMeta {
    pub pubkey: Pubkey,
    pub is_signer: bool,
    pub is_writable: bool,
}

/// Base58 of the System Program's id.
pub open spec fn system_program_text() -> Seq<char> {
    "11111111111111111111111111111111"@
}

/// Base58 of the id of the recent-blockhashes sysvar.
pub open spec fn recent_blockhashes_sysvar_text() -> Seq<char> {
    "SysvarRecentB1ockHashes11111111111111111111"@
}

/// Base58 of the SPL Token Program's id.
pub open spec fn token_program_text() -> Seq<char> {
    "TokenkegQfeZyiNwAJbNbGKPFXCWuBvf9Ss623VQ5DA"@
}

/// The accounts of an instruction as (key, signer, writable) triples.
pub open spec fn metas_view(accounts: Seq<AccountMeta>) -> Seq<(Seq<u8>, bool, bool)> {
    accounts.map_values(|a: AccountMeta| (a.pubkey@, a.is_signer, a.is_writable))
}

/// The data of an `AdvanceNonceAccount` instruction of the System Program:
/// opcode 4 as a little-endian u32.
pub open spec fn advance_nonce_data() -> Seq<u8> {
    seq![4u8, 0u8, 0u8, 0u8]
}

/// The data of a `TransferChecked` instruction of the Token Program: opcode
/// 12, the amount as a little-endian u64, then the decimals.
pub open spec fn transfer_checked_data(amount: u64, decimals: u8) -> Seq<u8> {
    seq![12u8] + vstd::bytes::spec_u64_to_le_bytes(amount) + seq![decimals]
}

impl Instruction {
    /// The instruction that advances a durable nonce account
    /// (`AdvanceNonceAccount` of the System Program).
    pub fn new_advance_nonce(nonce_account: Pubkey, nonce_authority: Pubkey) -> (r: Result<Instruction, String>)
        ensures
            match r {
                Ok(ix) => {
                    &&& pubkey_from_base58(system_program_text()) == Ok::<Seq<u8>, Seq<char>>(ix.program_id@)
                    &&& pubkey_from_base58(recent_blockhashes_sysvar_text()) is Ok
                    &&& metas_view(ix.accounts@) == seq![
                        (nonce_account@, false, true),
                        (pubkey_from_base58(recent_blockhashes_sysvar_text())->Ok_0, false, false),
                        (nonce_authority@, true, false),
                    ]
                    &&& ix.data@ == advance_nonce_data()
                },
                Err(e) => {
                    ||| pubkey_from_base58(system_program_text()) == Err::<Seq<u8>, Seq<char>>(e@)
                    ||| (pubkey_from_base58(system_program_text()) is Ok
                        && pubkey_from_base58(recent_blockhashes_sysvar_text()) == Err::<Seq<u8>, Seq<char>>(e@))
                },
            },
    {
        let system_program = Pubkey::from_str("11111111111111111111111111111111")?;
        let sysvar_recent_blockhashes = Pubkey::from_str("SysvarRecentB1ockHashes11111111111111111111")?;
        let accounts = vec![
            AccountMeta { pubkey: nonce_account, is_signer: false, is_writable: true },
            AccountMeta { pubkey: sysvar_recent_blockhashes, is_signer: false, is_writable: false },
            AccountMeta { pubkey: nonce_authority, is_signer: true, is_writable: false },
        ];
        let data = vec![4u8, 0, 0, 0];
        assert(metas_view(accounts@) =~= seq![
            (nonce_account@, false, true),
            (sysvar_recent_blockhashes@, false, false),
            (nonce_authority@, true, false),
        ]);
        assert(data@ =~= advance_nonce_data());
        Ok(Instruction { program_id: system_program, accounts, data })
    }

    /// A transfer of SPL tokens with `TransferChecked` (opcode 12), which
    /// names the mint and the decimals explicitly.
    pub fn new_spl_transfer(
        source: Pubkey,
        mint: Pubkey,
        destination: Pubkey,
        owner: Pubkey,
        amount: u64,
        decimals: u8,
    ) -> (r: Result<Instruction, String>)
        ensures
            match r {
                Ok(ix) => {
                    &&& pubkey_from_base58(token_program_text()) == Ok::<Seq<u8>, Seq<char>>(ix.program_id@)
                    &&& metas_view(ix.accounts@) == seq![
                        (source@, false, true),
                        (mint@, false, false),
                        (destination@, false, true),
                        (owner@, true, false),
                    ]
                    &&& ix.data@ == transfer_checked_data(amount, decimals)
                },
                Err(e) => pubkey_from_base58(token_program_text()) == Err::<Seq<u8>, Seq<char>>(e@),
            },
    {
        let token_program = Pubkey::from_str("TokenkegQfeZyiNwAJbNbGKPFXCWuBvf9Ss623VQ5DA")?;
        let accounts = vec![
            AccountMeta { pubkey: source, is_signer: false, is_writable: true },
            AccountMeta { pubkey: mint, is_signer: false, is_writable: false },
            AccountMeta { pubkey: destination, is_signer: false, is_writable: true },
            AccountMeta { pubkey: owner, is_signer: true, is_writable: false },
        ];
        let mut data = vec![12u8];
        let mut amount_bytes = vstd::bytes::u64_to_le_bytes(amount);
        data.append(&mut amount_bytes);
        data.push(decimals);
        assert(metas_view(accounts@) =~= seq![
            (source@, false, true),
            (mint@, false, false),
            (destination@, false, true),
            (owner@, true, false),
        ]);
        assert(data@ =~= transfer_checked_data(amount, decimals));
        Ok(Instruction { program_id: token_program, accounts, data })
    }
}

// ---------------------------------------------------------------------------
// Messages
// ---------------------------------------------------------------------------

/// The header that tells the network how many signatures to expect and which
/// accounts are read-only.
#[derive(Debug, Clone, Copy)]
pub struct MessageHeader {
    pub num_required_signatures: u8,
    pub num_readonly_signed_accounts: u8,
    pub num_readonly_unsigned_accounts: u8,
}

/// An instruction whose keys are replaced by their positions in the
/// message's key list.
#[derive(Debug, Clone)]
pub struct CompiledInstruction {
    /// Position of the program's key.
    pub program_id_index: u8,
    /// Positions of the instruction's accounts.
    pub accounts: Vec<u8>,
    /// The opcode and the parameters.
    pub data: Vec<u8>,
}

/// The payload that is serialized, signed and sent to the network.
#[derive(Debug, Clone)]
pub struct Message {
    pub header: MessageHeader,
    /// Every key that the transaction uses, each once.
    pub account_keys: Vec<Pubkey>,
    /// A recent blockhash, or the blockhash stored in a durable nonce.
    pub recent_blockhash: Pubkey,
    pub instructions: Vec<CompiledInstruction>,
}

/// The keys of a list, by their bytes.
pub open spec fn keys_view(keys: Seq<Pubkey>) -> Seq<Seq<u8>> {
    keys.map_values(|k: Pubkey| k@)
}

/// A list of (key, signer, writable) triples, by the bytes of the keys.
pub open spec fn triples_view(ts: Seq<(Pubkey, bool, bool)>) -> Seq<(Seq<u8>, bool, bool)> {
    ts.map_values(|t: (Pubkey, bool, bool)| (t.0@, t.1, t.2))
}

/// The keys that an instruction names, with their privileges: its program
/// (neither signer nor writable), then its accounts.
pub open spec fn instruction_entries(ix: Instruction) -> Seq<(Seq<u8>, bool, bool)> {
    seq![(ix.program_id@, false, false)] + metas_view(ix.accounts@)
}

/// Every key that a message names, in order of appearance: the payer (signer
/// and writable), then what each instruction names.
pub open spec fn message_entries(payer: Seq<u8>, ixs: Seq<Instruction>) -> Seq<(Seq<u8>, bool, bool)>
    decreases ixs.len(),
{
    if ixs.len() == 0 {
        seq![(payer, true, true)]
    } else {
        message_entries(payer, ixs.drop_last()) + instruction_entries(ixs.last())
    }
}

/// Whether some entry names `k`.
pub open spec fn mentions(es: Seq<(Seq<u8>, bool, bool)>, k: Seq<u8>) -> bool {
    exists|i: int| 0 <= i < es.len() && #[trigger] es[i].0 == k
}

/// Whether some entry names `k` as a signer.
pub open spec fn signs(es: Seq<(Seq<u8>, bool, bool)>, k: Seq<u8>) -> bool {
    exists|i: int| 0 <= i < es.len() && #[trigger] es[i].0 == k && es[i].1
}

/// Whether some entry names `k` as writable.
pub open spec fn writes(es: Seq<(Seq<u8>, bool, bool)>, k: Seq<u8>) -> bool {
    exists|i: int| 0 <= i < es.len() && #[trigger] es[i].0 == k && es[i].2
}

/// The keys named by the entries, each once, in order of first appearance.
pub open spec fn unique_keys(es: Seq<(Seq<u8>, bool, bool)>) -> Seq<Seq<u8>>
    decreases es.len(),
{
    if es.len() == 0 {
        Seq::empty()
    } else {
        let before = unique_keys(es.drop_last());
        if before.contains(es.last().0) {
            before
        } else {
            before.push(es.last().0)
        }
    }
}

/// The class of a key among the entries: (signer, writable).
pub open spec fn in_class(es: Seq<(Seq<u8>, bool, bool)>, signer: bool, writable: bool) -> spec_fn(Seq<u8>) -> bool {
    |k: Seq<u8>| signs(es, k) == signer && writes(es, k) == writable
}

/// The keys that sign and are writable, in order of first appearance.
pub open spec fn signer_writable_keys(es: Seq<(Seq<u8>, bool, bool)>) -> Seq<Seq<u8>> {
    unique_keys(es).filter(in_class(es, true, true))
}

/// The keys that sign and are read-only, in order of first appearance.
pub open spec fn signer_readonly_keys(es: Seq<(Seq<u8>, bool, bool)>) -> Seq<Seq<u8>> {
    unique_keys(es).filter(in_class(es, true, false))
}

/// The keys that do not sign and are writable, in order of first appearance.
pub open spec fn nonsigner_writable_keys(es: Seq<(Seq<u8>, bool, bool)>) -> Seq<Seq<u8>> {
    unique_keys(es).filter(in_class(es, false, true))
}

/// The keys that do not sign and are read-only, in order of first appearance.
pub open spec fn nonsigner_readonly_keys(es: Seq<(Seq<u8>, bool, bool)>) -> Seq<Seq<u8>> {
    unique_keys(es).filter(in_class(es, false, false))
}

/// The key list of a message: the four groups in protocol order.
pub open spec fn ordered_keys(es: Seq<(Seq<u8>, bool, bool)>) -> Seq<Seq<u8>> {
    signer_writable_keys(es) + signer_readonly_keys(es) + nonsigner_writable_keys(es)
        + nonsigner_readonly_keys(es)
}

/// The position of `k` in `keys` (its first occurrence), as the one byte
/// that the wire format gives it.
pub open spec fn key_index(keys: Seq<Seq<u8>>, k: Seq<u8>) -> u8 {
    (keys.index_of_first(k)->Some_0) as u8
}

/// What compiling `ix` against the key list `keys` gives.
pub open spec fn compiles_to(c: CompiledInstruction, keys: Seq<Seq<u8>>, ix: Instruction) -> bool {
    &&& c.program_id_index == key_index(keys, ix.program_id@)
    &&& c.accounts@ == ix.accounts@.map_values(|a: AccountMeta| key_index(keys, a.pubkey@))
    &&& c.data@ == ix.data@
}

/// What one more entry changes: it may name one more key, and may add a
/// privilege to the key it names.
proof fn lemma_push_entry(es: Seq<(Seq<u8>, bool, bool)>, e: (Seq<u8>, bool, bool))
    ensures
        forall|k: Seq<u8>| #[trigger] mentions(es.push(e), k) == (mentions(es, k) || e.0 == k),
        forall|k: Seq<u8>| #[trigger] signs(es.push(e), k) == (signs(es, k) || (e.0 == k && e.1)),
        forall|k: Seq<u8>| #[trigger] writes(es.push(e), k) == (writes(es, k) || (e.0 == k && e.2)),
        unique_keys(es.push(e)) == (if unique_keys(es).contains(e.0) {
            unique_keys(es)
        } else {
            unique_keys(es).push(e.0)
        }),
{
    let f = es.push(e);
    assert(f.drop_last() =~= es);
    assert forall|k: Seq<u8>| #[trigger] mentions(f, k) == (mentions(es, k) || e.0 == k) by {
        if mentions(es, k) {
            let i = choose|i: int| 0 <= i < es.len() && #[trigger] es[i].0 == k;
            assert(f[i].0 == k);
        }
        if e.0 == k {
            assert(f[es.len() as int].0 == k);
        }
    }
    assert forall|k: Seq<u8>| #[trigger] signs(f, k) == (signs(es, k) || (e.0 == k && e.1)) by {
        if signs(es, k) {
            let i = choose|i: int| 0 <= i < es.len() && #[trigger] es[i].0 == k && es[i].1;
            assert(f[i].0 == k);
        }
        if e.0 == k && e.1 {
            assert(f[es.len() as int].0 == k);
        }
        if signs(f, k) {
            let i = choose|i: int| 0 <= i < f.len() && #[trigger] f[i].0 == k && f[i].1;
            if i < es.len() {
                assert(es[i].0 == k);
            }
        }
    }
    assert forall|k: Seq<u8>| #[trigger] writes(f, k) == (writes(es, k) || (e.0 == k && e.2)) by {
        if writes(es, k) {
            let i = choose|i: int| 0 <= i < es.len() && #[trigger] es[i].0 == k && es[i].2;
            assert(f[i].0 == k);
        }
        if e.0 == k && e.2 {
            assert(f[es.len() as int].0 == k);
        }
        if writes(f, k) {
            let i = choose|i: int| 0 <= i < f.len() && #[trigger] f[i].0 == k && f[i].2;
            if i < es.len() {
                assert(es[i].0 == k);
            }
        }
    }
}

/// The list of first appearances holds each named key, once.
proof fn lemma_unique_keys(es: Seq<(Seq<u8>, bool, bool)>)
    ensures
        unique_keys(es).no_duplicates(),
        forall|k: Seq<u8>| #[trigger] unique_keys(es).contains(k) == mentions(es, k),
    decreases es.len(),
{
    if es.len() > 0 {
        let d = es.drop_last();
        lemma_unique_keys(d);
        lemma_push_entry(d, es.last());
        assert(d.push(es.last()) =~= es);
        let before = unique_keys(d);
        if !before.contains(es.last().0) {
            let after = before.push(es.last().0);
            assert forall|k: Seq<u8>| #[trigger] after.contains(k) == (before.contains(k) || es.last().0 == k) by {
                if before.contains(k) {
                    let i = choose|i: int| 0 <= i < before.len() && before[i] == k;
                    assert(after[i] == k);
                }
                if after.contains(k) {
                    let i = choose|i: int| 0 <= i < after.len() && after[i] == k;
                    if i < before.len() {
                        assert(before[i] == k);
                    }
                }
                if es.last().0 == k {
                    assert(after[before.len() as int] == k);
                }
            }
        }
    }
}

/// Every key and privilege that a message names, in order.
fn collect_entries(instructions: &[Instruction], payer: &Pubkey) -> (r: Vec<(Pubkey, bool, bool)>)
    ensures
        triples_view(r@) == message_entries(payer@, instructions@),
{
    let mut r: Vec<(Pubkey, bool, bool)> = Vec::new();
    r.push((*payer, true, true));
    assert(triples_view(r@) =~= message_entries(payer@, instructions@.take(0)));
    let n = instructions.len();
    let mut i: usize = 0;
    while i < n
        invariant
            n == instructions@.len(),
            0 <= i <= n,
            triples_view(r@) == message_entries(payer@, instructions@.take(i as int)),
        decreases n - i,
    {
        let ix = &instructions[i];
        let ghost before = triples_view(r@);
        r.push((ix.program_id, false, false));
        assert(triples_view(r@) =~= before + instruction_entries(*ix).take(1));
        let m = ix.accounts.len();
        let mut a: usize = 0;
        while a < m
            invariant
                m == ix.accounts@.len(),
                0 <= a <= m,
                triples_view(r@) == before + instruction_entries(*ix).take(a + 1),
            decreases m - a,
        {
            let acc = ix.accounts[a];
            let ghost mid = triples_view(r@);
            r.push((acc.pubkey, acc.is_signer, acc.is_writable));
            assert(instruction_entries(*ix).take(a + 2) =~= instruction_entries(*ix).take(a + 1).push(
                (acc.pubkey@, acc.is_signer, acc.is_writable),
            ));
            assert(triples_view(r@) =~= mid.push((acc.pubkey@, acc.is_signer, acc.is_writable)));
            a = a + 1;
        }
        assert(instruction_entries(*ix).take(m + 1) =~= instruction_entries(*ix));
        assert(instructions@.take(i + 1).drop_last() =~= instructions@.take(i as int));
        assert(instructions@.take(i + 1).last() == *ix);
        i = i + 1;
    }
    assert(instructions@.take(n as int) =~= instructions@);
    r
}

/// Where `key` stands in a list of triples.
fn find_triple(ts: &Vec<(Pubkey, bool, bool)>, key: &Pubkey) -> (r: Option<usize>)
    ensures
        match r {
            Some(p) => p < ts.len() && ts@[p as int].0@ == key@,
            None => forall|q: int| 0 <= q < ts.len() ==> ts@[q].0@ != key@,
        },
{
    let mut p: usize = 0;
    while p < ts.len()
        invariant
            p <= ts.len(),
            forall|q: int| 0 <= q < p ==> ts@[q].0@ != key@,
        decreases ts.len() - p,
    {
        if ts[p].0.same_key(key) {
            return Some(p);
        }
        p = p + 1;
    }
    None
}

/// `t` is the key `k` with the privileges that the entries give it.
spec fn agrees(t: (Pubkey, bool, bool), es: Seq<(Seq<u8>, bool, bool)>, k: Seq<u8>) -> bool {
    &&& t.0@ == k
    &&& t.1 == signs(es, k)
    &&& t.2 == writes(es, k)
}

/// `meta` holds the keys of the entries once each, in order of first
/// appearance, with their gathered privileges.
spec fn aggregated(meta: Seq<(Pubkey, bool, bool)>, es: Seq<(Seq<u8>, bool, bool)>) -> bool {
    &&& meta.len() == unique_keys(es).len()
    &&& forall|j: int| 0 <= j < meta.len() ==> agrees(#[trigger] meta[j], es, unique_keys(es)[j])
}

/// Each named key once, in order of first appearance, with its privileges
/// gathered over every entry that names it.
fn aggregate_entries(entries: &Vec<(Pubkey, bool, bool)>) -> (meta: Vec<(Pubkey, bool, bool)>)
    ensures
        aggregated(meta@, triples_view(entries@)),
{
    let ghost all = triples_view(entries@);
    let mut meta: Vec<(Pubkey, bool, bool)> = Vec::new();
    let n = entries.len();
    let mut k: usize = 0;
    assert(all.take(0) =~= Seq::<(Seq<u8>, bool, bool)>::empty());
    while k < n
        invariant
            n == entries.len(),
            all == triples_view(entries@),
            0 <= k <= n,
            aggregated(meta@, all.take(k as int)),
        decreases n - k,
    {
        let e = entries[k];
        let ghost prev = all.take(k as int);
        let ghost ev = (e.0@, e.1, e.2);
        let ghost next = prev.push(ev);
        assert(all.take(k + 1) =~= next);
        proof {
            lemma_push_entry(prev, ev);
            lemma_unique_keys(prev);
        }
        let ghost u = unique_keys(prev);
        let ghost before_meta = meta@;
        match find_triple(&meta, &e.0) {
            Some(p) => {
                let old_entry = meta[p];
                meta.set(p, (old_entry.0, old_entry.1 || e.1, old_entry.2 || e.2));
                assert(agrees(before_meta[p as int], prev, u[p as int]));
                assert(u.contains(e.0@)) by {
                    assert(u[p as int] == e.0@);
                }
                assert(unique_keys(next) == u);
                assert forall|j: int| 0 <= j < meta.len() implies agrees(#[trigger] meta@[j], next, unique_keys(next)[j]) by {
                    assert(agrees(before_meta[j], prev, u[j]));
                    if j != p {
                        assert(u[j] != u[p as int]);
                        assert(meta@[j] == before_meta[j]);
                    }
                }
            },
            None => {
                meta.push(e);
                assert(!u.contains(e.0@)) by {
                    if u.contains(e.0@) {
                        let q = choose|q: int| 0 <= q < u.len() && u[q] == e.0@;
                        assert(agrees(before_meta[q], prev, u[q]));
                    }
                }
                assert(unique_keys(next) == u.push(e.0@));
                assert forall|j: int| 0 <= j < meta.len() implies agrees(#[trigger] meta@[j], next, unique_keys(next)[j]) by {
                    if j < u.len() {
                        assert(agrees(before_meta[j], prev, u[j]));
                        assert(u[j] != e.0@);
                        assert(meta@[j] == before_meta[j]);
                    }
                }
            },
        }
        k = k + 1;
    }
    assert(all.take(n as int) =~= all);
    meta
}

/// A named key is in one of the four groups.
proof fn lemma_mentioned_key_is_ordered(es: Seq<(Seq<u8>, bool, bool)>, k: Seq<u8>)
    requires
        mentions(es, k),
    ensures
        ordered_keys(es).contains(k),
{
    lemma_unique_keys(es);
    let u = unique_keys(es);
    assert(u.contains(k));
    let i = choose|i: int| 0 <= i < u.len() && u[i] == k;
    let pred = in_class(es, signs(es, k), writes(es, k));
    assert(pred(u[i]));
    u.lemma_filter_contains(pred, i);
    let g = u.filter(pred);
    assert(g.contains(k));
    let j = choose|j: int| 0 <= j < g.len() && g[j] == k;
    let a = signer_writable_keys(es);
    let b = signer_readonly_keys(es);
    let c = nonsigner_writable_keys(es);
    let d = nonsigner_readonly_keys(es);
    let all = a + b + c + d;
    if signs(es, k) && writes(es, k) {
        assert(all[j] == k);
    } else if signs(es, k) {
        assert(all[a.len() + j] == k);
    } else if writes(es, k) {
        assert(all[a.len() + b.len() + j] == k);
    } else {
        assert(all[a.len() + b.len() + c.len() + j] == k);
    }
}

/// Every key that an instruction names is named by the message.
proof fn lemma_instruction_keys_mentioned(payer: Seq<u8>, ixs: Seq<Instruction>, i: int)
    requires
        0 <= i < ixs.len(),
    ensures
        mentions(message_entries(payer, ixs), ixs[i].program_id@),
        forall|a: int|
            0 <= a < ixs[i].accounts@.len() ==> mentions(
                message_entries(payer, ixs),
                #[trigger] ixs[i].accounts@[a].pubkey@,
            ),
    decreases ixs.len(),
{
    let es = message_entries(payer, ixs);
    let before = message_entries(payer, ixs.drop_last());
    if i < ixs.len() - 1 {
        lemma_instruction_keys_mentioned(payer, ixs.drop_last(), i);
        assert(ixs.drop_last()[i] == ixs[i]);
        let w = choose|w: int| 0 <= w < before.len() && #[trigger] before[w].0 == ixs[i].program_id@;
        assert(es[w] == before[w]);
        assert(es[w].0 == ixs[i].program_id@);
        assert forall|a: int| 0 <= a < ixs[i].accounts@.len() implies mentions(
            es,
            #[trigger] ixs[i].accounts@[a].pubkey@,
        ) by {
            assert(mentions(before, ixs.drop_last()[i].accounts@[a].pubkey@));
            let v = choose|v: int| 0 <= v < before.len() && #[trigger] before[v].0 == ixs[i].accounts@[a].pubkey@;
            assert(es[v] == before[v]);
            assert(es[v].0 == ixs[i].accounts@[a].pubkey@);
        }
    } else {
        let ie = instruction_entries(ixs[i]);
        assert(es[before.len() as int] == ie[0]);
        assert(es[before.len() as int].0 == ixs[i].program_id@);
        assert forall|a: int| 0 <= a < ixs[i].accounts@.len() implies mentions(
            es,
            #[trigger] ixs[i].accounts@[a].pubkey@,
        ) by {
            assert(es[before.len() + 1 + a] == ie[1 + a]);
            assert(es[before.len() + 1 + a].0 == ixs[i].accounts@[a].pubkey@);
        }
    }
}

/// Where `key` first stands in `keys`.
fn find_key(keys: &Vec<Pubkey>, key: &Pubkey) -> (r: Option<usize>)
    ensures
        match r {
            Some(p) => p < keys.len() && keys_view(keys@).index_of_first(key@) == Some(p as int),
            None => !keys_view(keys@).contains(key@),
        },
{
    let ghost kv = keys_view(keys@);
    let mut p: usize = 0;
    while p < keys.len()
        invariant
            p <= keys.len(),
            kv == keys_view(keys@),
            forall|q: int| 0 <= q < p ==> kv[q] != key@,
        decreases keys.len() - p,
    {
        if keys[p].same_key(key) {
            proof {
                kv.index_of_first_ensures(key@);
                assert(kv[p as int] == key@);
            }
            return Some(p);
        }
        p = p + 1;
    }
    None
}

/// Replaces the keys of `ix` by their positions in `keys`.
fn compile_instruction(ix: &Instruction, keys: &Vec<Pubkey>) -> (c: CompiledInstruction)
    requires
        keys_view(keys@).contains(ix.program_id@),
        forall|a: int| 0 <= a < ix.accounts@.len() ==> keys_view(keys@).contains(#[trigger] ix.accounts@[a].pubkey@),
    ensures
        compiles_to(c, keys_view(keys@), *ix),
{
    let ghost kv = keys_view(keys@);
    let program_id_index = #[verifier::truncate] (find_key(keys, &ix.program_id).unwrap() as u8);
    let mut accounts: Vec<u8> = Vec::new();
    let m = ix.accounts.len();
    let mut a: usize = 0;
    while a < m
        invariant
            m == ix.accounts@.len(),
            0 <= a <= m,
            kv == keys_view(keys@),
            forall|b: int| 0 <= b < ix.accounts@.len() ==> kv.contains(#[trigger] ix.accounts@[b].pubkey@),
            accounts@ == ix.accounts@.take(a as int).map_values(|acc: AccountMeta| key_index(kv, acc.pubkey@)),
        decreases m - a,
    {
        assert(kv.contains(ix.accounts@[a as int].pubkey@));
        let p = find_key(keys, &ix.accounts[a].pubkey).unwrap();
        accounts.push(#[verifier::truncate] (p as u8));
        assert(ix.accounts@.take(a + 1) =~= ix.accounts@.take(a as int).push(ix.accounts@[a as int]));
        assert(accounts@ =~= ix.accounts@.take(a + 1).map_values(|acc: AccountMeta| key_index(kv, acc.pubkey@)));
        a = a + 1;
    }
    assert(ix.accounts@.take(m as int) =~= ix.accounts@);
    let data = ix.data.clone();
    assert(data@ =~= ix.data@);
    CompiledInstruction { program_id_index, accounts, data }
}

impl Message {
    /// Compiles instructions into a message: every key once, in the four
    /// groups that the protocol requires (signer and writable, signer and
    /// read-only, writable, read-only), each group in order of first
    /// appearance, with the payer first and each key's privileges gathered
    /// over every instruction that names it; the instructions then name
    /// their keys by position.
    pub fn new(instructions: &[Instruction], payer: &Pubkey, recent_blockhash: Pubkey) -> (m: Message)
        ensures
            ({
                let es = message_entries(payer@, instructions@);
                &&& keys_view(m.account_keys@) == ordered_keys(es)
                &&& m.header.num_required_signatures
                    == (signer_writable_keys(es).len() + signer_readonly_keys(es).len()) as u8
                &&& m.header.num_readonly_signed_accounts == signer_readonly_keys(es).len() as u8
                &&& m.header.num_readonly_unsigned_accounts == nonsigner_readonly_keys(es).len() as u8
                &&& m.recent_blockhash == recent_blockhash
                &&& m.instructions@.len() == instructions@.len()
                &&& forall|i: int| 0 <= i < instructions@.len() ==> compiles_to(
                    #[trigger] m.instructions@[i],
                    ordered_keys(es),
                    instructions@[i],
                )
            }),
    {
        let entries = collect_entries(instructions, payer);
        let ghost es = triples_view(entries@);
        let meta = aggregate_entries(&entries);
        let ghost u = unique_keys(es);

        let mut signer_writable: Vec<Pubkey> = Vec::new();
        let mut signer_readonly: Vec<Pubkey> = Vec::new();
        let mut nonsigner_writable: Vec<Pubkey> = Vec::new();
        let mut nonsigner_readonly: Vec<Pubkey> = Vec::new();
        let n = meta.len();
        let mut j: usize = 0;
        while j < n
            invariant
                n == meta.len(),
                u == unique_keys(es),
                n == u.len(),
                0 <= j <= n,
                aggregated(meta@, es),
                keys_view(signer_writable@) == u.take(j as int).filter(in_class(es, true, true)),
                keys_view(signer_readonly@) == u.take(j as int).filter(in_class(es, true, false)),
                keys_view(nonsigner_writable@) == u.take(j as int).filter(in_class(es, false, true)),
                keys_view(nonsigner_readonly@) == u.take(j as int).filter(in_class(es, false, false)),
            decreases n - j,
        {
            let (key, is_signer, is_writable) = meta[j];
            assert(agrees(meta@[j as int], es, u[j as int]));
            assert(u.take(j + 1) =~= u.take(j as int).push(u[j as int]));
            proof {
                u.take(j as int).lemma_filter_push(u[j as int], in_class(es, true, true));
                u.take(j as int).lemma_filter_push(u[j as int], in_class(es, true, false));
                u.take(j as int).lemma_filter_push(u[j as int], in_class(es, false, true));
                u.take(j as int).lemma_filter_push(u[j as int], in_class(es, false, false));
            }
            if is_signer && is_writable {
                signer_writable.push(key);
                assert(keys_view(signer_writable@) =~= u.take(j as int).filter(in_class(es, true, true)).push(key@));
            } else if is_signer {
                signer_readonly.push(key);
                assert(keys_view(signer_readonly@) =~= u.take(j as int).filter(in_class(es, true, false)).push(key@));
            } else if is_writable {
                nonsigner_writable.push(key);
                assert(keys_view(nonsigner_writable@) =~= u.take(j as int).filter(in_class(es, false, true)).push(key@));
            } else {
                nonsigner_readonly.push(key);
                assert(keys_view(nonsigner_readonly@) =~= u.take(j as int).filter(in_class(es, false, false)).push(key@));
            }
            j = j + 1;
        }
        assert(u.take(n as int) =~= u);

        let n_signer_writable = signer_writable.len();
        let n_signer_readonly = signer_readonly.len();
        let n_nonsigner_writable = nonsigner_writable.len();
        let n_nonsigner_readonly = nonsigner_readonly.len();
        let mut account_keys = signer_writable;
        account_keys.append(&mut signer_readonly);
        account_keys.append(&mut nonsigner_writable);
        account_keys.append(&mut nonsigner_readonly);
        assert(keys_view(account_keys@) =~= ordered_keys(es));

        assert(account_keys.len() == n_signer_writable + n_signer_readonly + n_nonsigner_writable
            + n_nonsigner_readonly);
        let num_required_signatures = #[verifier::truncate] ((n_signer_writable + n_signer_readonly) as u8);
        let num_readonly_signed_accounts = #[verifier::truncate] (n_signer_readonly as u8);
        let num_readonly_unsigned_accounts = #[verifier::truncate] (n_nonsigner_readonly as u8);

        let mut compiled: Vec<CompiledInstruction> = Vec::new();
        let count = instructions.len();
        let mut i: usize = 0;
        while i < count
            invariant
                count == instructions@.len(),
                0 <= i <= count,
                es == message_entries(payer@, instructions@),
                keys_view(account_keys@) == ordered_keys(es),
                compiled@.len() == i,
                forall|q: int| 0 <= q < i ==> compiles_to(
                    #[trigger] compiled@[q],
                    ordered_keys(es),
                    instructions@[q],
                ),
            decreases count - i,
        {
            let ix = &instructions[i];
            proof {
                lemma_instruction_keys_mentioned(payer@, instructions@, i as int);
                lemma_mentioned_key_is_ordered(es, ix.program_id@);
                assert forall|a: int| 0 <= a < ix.accounts@.len() implies keys_view(account_keys@).contains(
                    #[trigger] ix.accounts@[a].pubkey@,
                ) by {
                    lemma_mentioned_key_is_ordered(es, ix.accounts@[a].pubkey@);
                }
            }
            let c = compile_instruction(ix, &account_keys);
            compiled.push(c);
            i = i + 1;
        }

        let header = MessageHeader {
            num_required_signatures,
            num_readonly_signed_accounts,
            num_readonly_unsigned_accounts,
        };
        Message { header, account_keys, recent_blockhash, instructions: compiled }
    }
}

// ---------------------------------------------------------------------------
// Wire format
// ---------------------------------------------------------------------------

/// The bytes of a compiled instruction: program position, then the account
/// positions and the data, each behind its compact-u16 length.
pub open spec fn compiled_instruction_bytes(c: CompiledInstruction) -> Seq<u8> {
    seq![c.program_id_index] + shortvec_encoding(c.accounts@.len()) + c.accounts@
        + shortvec_encoding(c.data@.len()) + c.data@
}

/// The bytes of a list of compiled instructions, one after the other.
pub open spec fn instructions_bytes(cs: Seq<CompiledInstruction>) -> Seq<u8>
    decreases cs.len(),
{
    if cs.len() == 0 {
        Seq::empty()
    } else {
        instructions_bytes(cs.drop_last()) + compiled_instruction_bytes(cs.last())
    }
}

/// The 32 bytes of each key, one after the other.
pub open spec fn keys_bytes(keys: Seq<Pubkey>) -> Seq<u8>
    decreases keys.len(),
{
    if keys.len() == 0 {
        Seq::empty()
    } else {
        keys_bytes(keys.drop_last()) + keys.last()@
    }
}

/// The wire format of a message: the three header bytes, the keys behind
/// their compact-u16 count, the recent blockhash, then the instructions
/// behind their compact-u16 count.
pub open spec fn message_bytes(m: Message) -> Seq<u8> {
    seq![
        m.header.num_required_signatures,
        m.header.num_readonly_signed_accounts,
        m.header.num_readonly_unsigned_accounts,
    ] + shortvec_encoding(m.account_keys@.len()) + keys_bytes(m.account_keys@) + m.recent_blockhash@
        + shortvec_encoding(m.instructions@.len()) + instructions_bytes(m.instructions@)
}

/// Appends `bytes` to `buf`.
fn push_all(buf: &mut Vec<u8>, bytes: &[u8])
    ensures
        final(buf)@ == old(buf)@ + bytes@,
{
    let ghost start = buf@;
    let n = bytes.len();
    let mut i: usize = 0;
    while i < n
        invariant
            n == bytes@.len(),
            0 <= i <= n,
            buf@ == start + bytes@.take(i as int),
        decreases n - i,
    {
        buf.push(bytes[i]);
        assert(bytes@.take(i + 1) =~= bytes@.take(i as int).push(bytes@[i as int]));
        i = i + 1;
    }
    assert(bytes@.take(n as int) =~= bytes@);
}

impl Message {
    /// The message in the real Solana wire format (compact-u16 lengths).
    pub fn serialize(&self) -> (r: Vec<u8>)
        ensures
            r@ == message_bytes(*self),
    {
        let mut buf: Vec<u8> = Vec::new();
        buf.push(self.header.num_required_signatures);
        buf.push(self.header.num_readonly_signed_accounts);
        buf.push(self.header.num_readonly_unsigned_accounts);

        write_shortvec_len(&mut buf, self.account_keys.len());
        let ghost after_count = buf@;
        let nk = self.account_keys.len();
        let mut k: usize = 0;
        while k < nk
            invariant
                nk == self.account_keys@.len(),
                0 <= k <= nk,
                buf@ == after_count + keys_bytes(self.account_keys@.take(k as int)),
            decreases nk - k,
        {
            push_all(&mut buf, &self.account_keys[k].0);
            assert(self.account_keys@.take(k + 1).drop_last() =~= self.account_keys@.take(k as int));
            k = k + 1;
        }
        assert(self.account_keys@.take(nk as int) =~= self.account_keys@);

        push_all(&mut buf, &self.recent_blockhash.0);

        write_shortvec_len(&mut buf, self.instructions.len());
        let ghost after_ix_count = buf@;
        let ni = self.instructions.len();
        let mut i: usize = 0;
        while i < ni
            invariant
                ni == self.instructions@.len(),
                0 <= i <= ni,
                buf@ == after_ix_count + instructions_bytes(self.instructions@.take(i as int)),
            decreases ni - i,
        {
            let ix = &self.instructions[i];
            let ghost before = buf@;
            buf.push(ix.program_id_index);
            write_shortvec_len(&mut buf, ix.accounts.len());
            push_all(&mut buf, ix.accounts.as_slice());
            write_shortvec_len(&mut buf, ix.data.len());
            push_all(&mut buf, ix.data.as_slice());
            assert(buf@ =~= before + compiled_instruction_bytes(*ix));
            assert(self.instructions@.take(i + 1).drop_last() =~= self.instructions@.take(i as int));
            i = i + 1;
        }
        assert(self.instructions@.take(ni as int) =~= self.instructions@);
        assert(buf@ =~= message_bytes(*self));
        buf
    }

    /// The wire format of the message, in Base58, ready to travel in a
    /// transaction.
    pub fn serialize_to_base58(&self) -> (r: Result<String, String>)
        ensures
            r matches Ok(text) && text@ == base58_encoded(message_bytes(*self)),
    {
        let buf = self.serialize();
        Ok(bs58_encode(buf.as_slice()))
    }
}

// ---------------------------------------------------------------------------
// Laws
// ---------------------------------------------------------------------------

/// A compact-u16 length reads back as the same length, whatever bytes
/// follow it, and takes exactly the bytes that were written.
pub proof fn law_shortvec_roundtrip(n: nat, rest: Seq<u8>)
    ensures
        shortvec_decode(shortvec_encoding(n) + rest) == Some((n, shortvec_encoding(n).len())),
    decreases n,
{
    let enc = shortvec_encoding(n);
    let bytes = enc + rest;
    if n < 128 {
        assert(bytes[0] == n as u8);
    } else {
        law_shortvec_roundtrip(n / 128, rest);
        let tail = shortvec_encoding(n / 128);
        assert(bytes.drop_first() =~= tail + rest);
        assert(bytes[0] == ((n % 128) + 128) as u8);
    }
}

/// The number that compact-u16 groups stand for: the low seven bits of each
/// byte, least significant group first.
pub open spec fn shortvec_groups_value(e: Seq<u8>) -> nat
    decreases e.len(),
{
    if e.len() == 0 {
        0
    } else {
        (e[0] % 128) as nat + 128 * shortvec_groups_value(e.drop_first())
    }
}

/// Bit by bit, what `write_shortvec_len` appends for `n`: every byte but the
/// last has its high bit set, the last has it clear, the low seven bits of
/// the bytes, least significant first, add up to `n`, and there are as few
/// bytes as hold `n` (at least one): `128^(k-1) <= n < 128^k` unless `k` is 1.
pub proof fn law_shortvec_bits(n: nat)
    ensures
        ({
            let e = shortvec_encoding(n);
            let k = e.len();
            &&& k >= 1
            &&& forall|i: int| 0 <= i < k - 1 ==> #[trigger] e[i] & 0x80 != 0
            &&& e[k - 1] & 0x80 == 0
            &&& shortvec_groups_value(e) == n
            &&& n < vstd::arithmetic::power::pow(128, k)
            &&& (k == 1 || vstd::arithmetic::power::pow(128, (k - 1) as nat) <= n)
        }),
    decreases n,
{
    let e = shortvec_encoding(n);
    let k = e.len();
    reveal(vstd::arithmetic::power::pow);
    vstd::arithmetic::power::lemma_pow1(128);
    if n < 128 {
        let b = n as u8;
        assert(b < 128 ==> b & 0x80 == 0) by (bit_vector);
        assert(e.drop_first() =~= Seq::<u8>::empty());
        assert(e[0] == b);
        assert(shortvec_groups_value(e) == (b % 128) as nat + 128 * shortvec_groups_value(e.drop_first()));
        assert(vstd::arithmetic::power::pow(128, k) == 128);
    } else {
        law_shortvec_bits(n / 128);
        let t = shortvec_encoding(n / 128);
        let kt = t.len();
        let b = ((n % 128) + 128) as u8;
        assert(e =~= seq![b] + t);
        assert(e.drop_first() =~= t);
        assert(b >= 128 ==> b & 0x80 != 0) by (bit_vector);
        assert forall|i: int| 0 <= i < k - 1 implies #[trigger] e[i] & 0x80 != 0 by {
            if i > 0 {
                assert(e[i] == t[i - 1]);
            }
        }
        assert(e[k - 1] == t[kt - 1]);
        let p = vstd::arithmetic::power::pow(128, kt);
        assert(vstd::arithmetic::power::pow(128, k) == 128 * vstd::arithmetic::power::pow(128, (k - 1) as nat));
        assert((k - 1) as nat == kt);
        assert(vstd::arithmetic::power::pow(128, k) == 128 * p);
        assert(shortvec_groups_value(e) == (b % 128) as nat + 128 * shortvec_groups_value(t));
        assert(n == n % 128 + 128 * (n / 128));
        assert(n / 128 < p);
        assert(n < 128 * p) by (nonlinear_arith)
            requires
                n / 128 < p,
        ;
        if kt == 1 {
            assert(vstd::arithmetic::power::pow(128, (k - 1) as nat) == 128);
        } else {
            let q = vstd::arithmetic::power::pow(128, (kt - 1) as nat);
            assert(vstd::arithmetic::power::pow(128, kt) == 128 * vstd::arithmetic::power::pow(128, (kt - 1) as nat));
            assert(vstd::arithmetic::power::pow(128, (k - 1) as nat) == 128 * q);
            assert(128 * q <= n) by (nonlinear_arith)
                requires
                    q <= n / 128,
            ;
        }
    }
}

/// Lengths below 2^7 take one byte, below 2^14 two, and up to the largest
/// 16-bit value three: the encoding is compact-u16.
pub proof fn law_shortvec_length(n: nat)
    ensures
        n < 128 ==> shortvec_encoding(n).len() == 1,
        128 <= n < 16384 ==> shortvec_encoding(n).len() == 2,
        16384 <= n < 65536 ==> shortvec_encoding(n).len() == 3,
{
    if n >= 128 {
        assert(shortvec_encoding(n).len() == 1 + shortvec_encoding(n / 128).len());
        if n / 128 >= 128 {
            assert(shortvec_encoding(n / 128).len() == 1 + shortvec_encoding(n / 128 / 128).len());
        }
    }
}

proof fn lemma_unique_keys_first(es: Seq<(Seq<u8>, bool, bool)>)
    requires
        es.len() > 0,
    ensures
        unique_keys(es).len() > 0,
        unique_keys(es)[0] == es[0].0,
    decreases es.len(),
{
    if es.len() > 1 {
        lemma_unique_keys_first(es.drop_last());
        assert(es.drop_last()[0] == es[0]);
        let before = unique_keys(es.drop_last());
        if !before.contains(es.last().0) {
            assert(before.push(es.last().0)[0] == before[0]);
        }
    } else {
        assert(es.drop_last().len() == 0);
        assert(unique_keys(es.drop_last()).len() == 0);
        assert(!unique_keys(es.drop_last()).contains(es.last().0));
    }
}

proof fn lemma_filter_no_duplicates(u: Seq<Seq<u8>>, pred: spec_fn(Seq<u8>) -> bool)
    requires
        u.no_duplicates(),
    ensures
        u.filter(pred).no_duplicates(),
        forall|x: Seq<u8>| #[trigger] u.filter(pred).contains(x) ==> u.contains(x) && pred(x),
    decreases u.len(),
{
    broadcast use Seq::lemma_filter_push;
    if u.len() > 0 {
        let d = u.drop_last();
        assert(d.push(u.last()) =~= u);
        lemma_filter_no_duplicates(d, pred);
        let fd = d.filter(pred);
        assert(!d.contains(u.last())) by {
            if d.contains(u.last()) {
                let i = choose|i: int| 0 <= i < d.len() && d[i] == u.last();
                assert(u[i] == u[u.len() - 1]);
            }
        }
        assert forall|x: Seq<u8>| #[trigger] u.filter(pred).contains(x) implies u.contains(x) && pred(x) by {
            let i = choose|i: int| 0 <= i < u.filter(pred).len() && u.filter(pred)[i] == x;
            if i < fd.len() {
                assert(fd[i] == x);
                assert(fd.contains(x));
                let w = choose|w: int| 0 <= w < d.len() && d[w] == x;
                assert(u[w] == x);
            } else {
                assert(u[u.len() - 1] == x);
            }
        }
        if pred(u.last()) {
            assert forall|i: int, j: int|
                0 <= i < u.filter(pred).len() && 0 <= j < u.filter(pred).len() && i != j
                implies u.filter(pred)[i] != u.filter(pred)[j] by {
                if i < fd.len() && j == fd.len() {
                    assert(fd.contains(fd[i]));
                } else if j < fd.len() && i == fd.len() {
                    assert(fd.contains(fd[j]));
                }
            }
        }
    } else {
        reveal(Seq::filter);
    }
}

/// The key list of a message holds every key that the message names and no
/// other, each exactly once, and starts with the payer.
pub proof fn law_message_keys_unique_and_complete(payer: Seq<u8>, ixs: Seq<Instruction>)
    ensures
        ordered_keys(message_entries(payer, ixs)).no_duplicates(),
        forall|k: Seq<u8>|
            #[trigger] ordered_keys(message_entries(payer, ixs)).contains(k) == mentions(message_entries(payer, ixs), k),
        ordered_keys(message_entries(payer, ixs)).len() > 0,
        ordered_keys(message_entries(payer, ixs))[0] == payer,
{
    let es = message_entries(payer, ixs);
    lemma_message_entries_first(payer, ixs);
    lemma_unique_keys(es);
    lemma_unique_keys_first(es);
    let u = unique_keys(es);
    let a = signer_writable_keys(es);
    let b = signer_readonly_keys(es);
    let c = nonsigner_writable_keys(es);
    let d = nonsigner_readonly_keys(es);
    let all = ordered_keys(es);
    lemma_filter_no_duplicates(u, in_class(es, true, true));
    lemma_filter_no_duplicates(u, in_class(es, true, false));
    lemma_filter_no_duplicates(u, in_class(es, false, true));
    lemma_filter_no_duplicates(u, in_class(es, false, false));
    // the payer signs and writes, so it opens the first group
    assert(signs(es, payer) && writes(es, payer)) by {
        assert(es[0].0 == payer);
    }
    assert(u =~= seq![u[0]] + u.drop_first());
    u.drop_first().lemma_filter_prepend(u[0], in_class(es, true, true));
    assert(a[0] == payer);
    // membership
    assert forall|k: Seq<u8>| #[trigger] all.contains(k) == mentions(es, k) by {
        if mentions(es, k) {
            lemma_mentioned_key_is_ordered(es, k);
        }
        if all.contains(k) {
            let i = choose|i: int| 0 <= i < all.len() && all[i] == k;
            if i < a.len() {
                assert(a.contains(a[i]));
            } else if i < a.len() + b.len() {
                assert(b.contains(b[i - a.len()]));
            } else if i < a.len() + b.len() + c.len() {
                assert(c.contains(c[i - a.len() - b.len()]));
            } else {
                assert(d.contains(d[i - a.len() - b.len() - c.len()]));
            }
            assert(u.contains(k));
        }
    }
    // no key twice: within a group by the filter, across groups by the class
    assert forall|i: int, j: int| 0 <= i < all.len() && 0 <= j < all.len() && i != j implies all[i] != all[j] by {
        let gi = group_of(a.len(), b.len(), c.len(), i);
        let gj = group_of(a.len(), b.len(), c.len(), j);
        if all[i] == all[j] {
            let x = all[i];
            lemma_group_member(es, i);
            lemma_group_member(es, j);
            if gi == gj {
                if gi == 0 {
                } else if gi == 1 {
                    assert(b[i - a.len()] == b[j - a.len()]);
                } else if gi == 2 {
                    assert(c[i - a.len() - b.len()] == c[j - a.len() - b.len()]);
                } else {
                    assert(d[i - a.len() - b.len() - c.len()] == d[j - a.len() - b.len() - c.len()]);
                }
            }
        }
    }
}

/// Which of the four groups position `i` of the key list falls in.
spec fn group_of(na: nat, nb: nat, nc: nat, i: int) -> int {
    if i < na {
        0
    } else if i < na + nb {
        1
    } else if i < na + nb + nc {
        2
    } else {
        3
    }
}

/// A key at position `i` of the key list has the privileges of its group.
proof fn lemma_group_member(es: Seq<(Seq<u8>, bool, bool)>, i: int)
    requires
        0 <= i < ordered_keys(es).len(),
    ensures
        ({
            let a = signer_writable_keys(es);
            let b = signer_readonly_keys(es);
            let c = nonsigner_writable_keys(es);
            let k = ordered_keys(es)[i];
            let g = group_of(a.len(), b.len(), c.len(), i);
            &&& signs(es, k) == (g <= 1)
            &&& writes(es, k) == (g == 0 || g == 2)
        }),
{
    broadcast use Seq::lemma_filter_pred;
    let u = unique_keys(es);
    let a = signer_writable_keys(es);
    let b = signer_readonly_keys(es);
    let c = nonsigner_writable_keys(es);
    let d = nonsigner_readonly_keys(es);
    let all = ordered_keys(es);
    if i < a.len() {
        assert(all[i] == a[i]);
        assert(in_class(es, true, true)(a[i]));
    } else if i < a.len() + b.len() {
        assert(all[i] == b[i - a.len()]);
        assert(in_class(es, true, false)(b[i - a.len()]));
    } else if i < a.len() + b.len() + c.len() {
        assert(all[i] == c[i - a.len() - b.len()]);
        assert(in_class(es, false, true)(c[i - a.len() - b.len()]));
    } else {
        assert(all[i] == d[i - a.len() - b.len() - c.len()]);
        assert(in_class(es, false, false)(d[i - a.len() - b.len() - c.len()]));
    }
}

proof fn lemma_message_entries_first(payer: Seq<u8>, ixs: Seq<Instruction>)
    ensures
        message_entries(payer, ixs).len() > 0,
        message_entries(payer, ixs)[0] == (payer, true, true),
    decreases ixs.len(),
{
    if ixs.len() > 0 {
        lemma_message_entries_first(payer, ixs.drop_last());
    }
}

/// The header says which keys sign and which are writable: a key signs
/// exactly when it stands among the first `num_required_signatures`; among
/// the signers the last `num_readonly_signed_accounts` are read-only, among
/// the others the last `num_readonly_unsigned_accounts`; every other key is
/// writable. (Counted in full here; the header stores them in one byte each.)
pub proof fn law_header_describes_privileges(payer: Seq<u8>, ixs: Seq<Instruction>, i: int)
    requires
        0 <= i < ordered_keys(message_entries(payer, ixs)).len(),
    ensures
        ({
            let es = message_entries(payer, ixs);
            let k = ordered_keys(es)[i];
            let required = signer_writable_keys(es).len() + signer_readonly_keys(es).len();
            let readonly_signed = signer_readonly_keys(es).len();
            let readonly_unsigned = nonsigner_readonly_keys(es).len();
            let total = ordered_keys(es).len();
            &&& signs(es, k) == (i < required)
            &&& writes(es, k) == (if i < required {
                i < required - readonly_signed
            } else {
                i < total - readonly_unsigned
            })
        }),
{
    lemma_group_member(message_entries(payer, ixs), i);
}

/// A compiled instruction names, by position, the very keys of the
/// instruction it was compiled from (while the key list fits the one-byte
/// positions of the wire format).
pub proof fn law_compiled_positions_resolve(keys: Seq<Seq<u8>>, c: CompiledInstruction, ix: Instruction)
    requires
        compiles_to(c, keys, ix),
        keys.len() <= 256,
        keys.contains(ix.program_id@),
        forall|a: int| 0 <= a < ix.accounts@.len() ==> keys.contains(#[trigger] ix.accounts@[a].pubkey@),
    ensures
        keys[c.program_id_index as int] == ix.program_id@,
        c.accounts@.len() == ix.accounts@.len(),
        forall|a: int| 0 <= a < c.accounts@.len() ==> keys[#[trigger] c.accounts@[a] as int] == ix.accounts@[a].pubkey@,
{
    keys.index_of_first_ensures(ix.program_id@);
    assert forall|a: int| 0 <= a < c.accounts@.len() implies keys[#[trigger] c.accounts@[a] as int] == ix.accounts@[a].pubkey@ by {
        keys.index_of_first_ensures(ix.accounts@[a].pubkey@);
        assert(c.accounts@[a] == key_index(keys, ix.accounts@[a].pubkey@));
    }
}

/// The data of a `TransferChecked` instruction: opcode 12, then the amount
/// that reads back from its eight little-endian bytes, then the decimals.
pub proof fn law_transfer_checked_layout(amount: u64, decimals: u8)
    ensures
        transfer_checked_data(amount, decimals).len() == 10,
        transfer_checked_data(amount, decimals)[0] == 12,
        vstd::bytes::spec_u64_from_le_bytes(transfer_checked_data(amount, decimals).subrange(1, 9)) == amount,
        transfer_checked_data(amount, decimals)[9] == decimals,
{
    vstd::bytes::lemma_auto_spec_u64_to_from_le_bytes();
    let le = vstd::bytes::spec_u64_to_le_bytes(amount);
    assert(transfer_checked_data(amount, decimals).subrange(1, 9) =~= le);
}

/// The wire format tells a reader how many keys follow the header: the
/// compact-u16 count after the three header bytes reads back as the number
/// of keys, followed by exactly 32 bytes per key.
pub proof fn law_wire_key_count_reads_back(m: Message)
    ensures
        ({
            let bytes = message_bytes(m);
            let count = shortvec_encoding(m.account_keys@.len());
            &&& shortvec_decode(bytes.skip(3)) == Some((m.account_keys@.len(), count.len()))
            &&& bytes.subrange(3 + count.len() as int, 3 + count.len() + 32 * m.account_keys@.len() as int) == keys_bytes(m.account_keys@)
        }),
{
    let bytes = message_bytes(m);
    let count = shortvec_encoding(m.account_keys@.len());
    let keys = keys_bytes(m.account_keys@);
    let rest = keys + m.recent_blockhash@ + shortvec_encoding(m.instructions@.len()) + instructions_bytes(m.instructions@);
    assert(bytes.skip(3) =~= count + rest);
    law_shortvec_roundtrip(m.account_keys@.len(), rest);
    lemma_keys_bytes_len(m.account_keys@);
    assert(bytes.subrange(3 + count.len() as int, 3 + count.len() + 32 * m.account_keys@.len() as int) =~= keys);
}

proof fn lemma_keys_bytes_len(keys: Seq<Pubkey>)
    ensures
        keys_bytes(keys).len() == 32 * keys.len(),
    decreases keys.len(),
{
    if keys.len() > 0 {
        lemma_keys_bytes_len(keys.drop_last());
    }
}

/// The total length of the encodings of a list of compiled instructions.
pub open spec fn instructions_len(cs: Seq<CompiledInstruction>) -> nat
    decreases cs.len(),
{
    if cs.len() == 0 {
        0
    } else {
        instructions_len(cs.drop_last()) + compiled_instruction_bytes(cs.last()).len()
    }
}

proof fn lemma_instructions_blocks(cs: Seq<CompiledInstruction>, i: int)
    requires
        0 <= i < cs.len(),
    ensures
        instructions_bytes(cs).len() == instructions_len(cs),
        instructions_len(cs.take(i)) + compiled_instruction_bytes(cs[i]).len() <= instructions_len(cs),
        instructions_bytes(cs).subrange(
            instructions_len(cs.take(i)) as int,
            instructions_len(cs.take(i)) + compiled_instruction_bytes(cs[i]).len() as int,
        ) == compiled_instruction_bytes(cs[i]),
    decreases cs.len(),
{
    let d = cs.drop_last();
    let last = compiled_instruction_bytes(cs.last());
    if i < cs.len() - 1 {
        lemma_instructions_blocks(d, i);
        assert(d.take(i) =~= cs.take(i));
        assert(d[i] == cs[i]);
        let a = instructions_len(cs.take(i)) as int;
        let b = a + compiled_instruction_bytes(cs[i]).len();
        assert(instructions_bytes(cs).subrange(a, b) =~= instructions_bytes(d).subrange(a, b));
    } else {
        assert(cs.take(i) =~= d);
        if d.len() > 0 {
            lemma_instructions_blocks(d, 0);
        } else {
            assert(instructions_bytes(d) =~= Seq::<u8>::empty());
        }
        assert(instructions_bytes(cs).subrange(instructions_len(d) as int, instructions_len(d) + last.len() as int) =~= last);
    }
}

/// On the wire, the instructions follow their count in the message's own
/// order: the `i`-th block after the count is the encoding of the `i`-th
/// compiled instruction (the blocks before it taking exactly their own
/// lengths), and nothing follows the last one.
pub proof fn law_wire_instructions_in_order(m: Message, i: int)
    requires
        0 <= i < m.instructions@.len(),
    ensures
        ({
            let nk = m.account_keys@.len();
            let ni = m.instructions@.len();
            let base = 3 + shortvec_encoding(nk).len() + 32 * nk + 32 + shortvec_encoding(ni).len();
            let start = base + instructions_len(m.instructions@.take(i));
            let block = compiled_instruction_bytes(m.instructions@[i]);
            &&& message_bytes(m).len() == base + instructions_len(m.instructions@)
            &&& start + block.len() <= message_bytes(m).len()
            &&& message_bytes(m).subrange(start as int, start + block.len() as int) == block
            &&& message_bytes(m)[start as int] == m.instructions@[i].program_id_index
        }),
{
    let nk = m.account_keys@.len();
    let ni = m.instructions@.len();
    let cs = m.instructions@;
    lemma_keys_bytes_len(m.account_keys@);
    lemma_instructions_blocks(cs, i);
    let head = seq![
        m.header.num_required_signatures,
        m.header.num_readonly_signed_accounts,
        m.header.num_readonly_unsigned_accounts,
    ] + shortvec_encoding(nk) + keys_bytes(m.account_keys@) + m.recent_blockhash@ + shortvec_encoding(ni);
    let base = 3 + shortvec_encoding(nk).len() + 32 * nk + 32 + shortvec_encoding(ni).len();
    assert(head.len() == base);
    assert(message_bytes(m) =~= head + instructions_bytes(cs));
    let a = instructions_len(cs.take(i)) as int;
    let block = compiled_instruction_bytes(cs[i]);
    assert(message_bytes(m).subrange(base + a, base + a + block.len()) =~= instructions_bytes(cs).subrange(a, a + block.len()));
    assert(block[0] == cs[i].program_id_index);
}

proof fn lemma_keys_blocks(keys: Seq<Pubkey>, j: int)
    requires
        0 <= j < keys.len(),
    ensures
        keys_bytes(keys).len() == 32 * keys.len(),
        keys_bytes(keys).subrange(32 * j, 32 * j + 32) == keys[j]@,
    decreases keys.len(),
{
    let d = keys.drop_last();
    lemma_keys_bytes_len(keys);
    lemma_keys_bytes_len(d);
    if j < keys.len() - 1 {
        lemma_keys_blocks(d, j);
        assert(keys_bytes(keys).subrange(32 * j, 32 * j + 32) =~= keys_bytes(d).subrange(32 * j, 32 * j + 32));
    } else {
        assert(keys_bytes(keys).subrange(32 * j, 32 * j + 32) =~= keys.last()@);
    }
}

/// On the wire the header's three counts come first, in order; then, after
/// the compact-u16 key count, the `j`-th 32-byte block is the `j`-th key of
/// the message, and the recent blockhash follows the last key.
pub proof fn law_wire_header_and_keys_in_order(m: Message, j: int)
    requires
        0 <= j < m.account_keys@.len(),
    ensures
        ({
            let bytes = message_bytes(m);
            let nk = m.account_keys@.len();
            let off = 3 + shortvec_encoding(nk).len() as int;
            &&& bytes[0] == m.header.num_required_signatures
            &&& bytes[1] == m.header.num_readonly_signed_accounts
            &&& bytes[2] == m.header.num_readonly_unsigned_accounts
            &&& bytes.subrange(off + 32 * j, off + 32 * j + 32) == m.account_keys@[j]@
            &&& bytes.subrange(off + 32 * nk, off + 32 * nk + 32) == m.recent_blockhash@
        }),
{
    let nk = m.account_keys@.len();
    let ni = m.instructions@.len();
    lemma_keys_blocks(m.account_keys@, j);
    let pre = seq![
        m.header.num_required_signatures,
        m.header.num_readonly_signed_accounts,
        m.header.num_readonly_unsigned_accounts,
    ] + shortvec_encoding(nk);
    let kb = keys_bytes(m.account_keys@);
    let tail = shortvec_encoding(ni) + instructions_bytes(m.instructions@);
    let bytes = message_bytes(m);
    assert(bytes =~= pre + kb + m.recent_blockhash@ + tail);
    let off = pre.len() as int;
    assert(bytes.subrange(off + 32 * j, off + 32 * j + 32) =~= kb.subrange(32 * j, 32 * j + 32));
    assert(bytes.subrange(off + 32 * nk, off + 32 * nk + 32) =~= m.recent_blockhash@);
}

} // verus!

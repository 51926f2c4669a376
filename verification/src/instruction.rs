use vstd::prelude::*;
use crate::error::ExecError;
use crate::key::Pubkey;

verus! {

/// Most account references that one instruction can carry: the wire format
/// counts them in one byte.
pub const MAX_ACCOUNTS: usize = 255;

/// Most payload bytes that one instruction can carry.
pub const MAX_PAYLOAD_LEN: usize = 1024;

/// Bytes that one account reference takes on the wire: the key and two flags.
pub const META_LEN: usize = 34;

/// Bytes in front of the account references: the program identifier and the
/// count of references.
pub const HEADER_LEN: usize = 33;

/// A reference to an account, with the access that the call asks for.
#[derive(Clone, Copy, Debug, PartialEq, Eq)]
pub struct AccountMeta {
    pub key: Pubkey,
    pub is_writable: bool,
    pub is_signer: bool,
}

/// One call of a program: the target, the accounts it may touch, in order,
/// and bytes that only the program reads.
#[derive(Clone, Debug, PartialEq, Eq)]
pub struct Instruction {
    pub program_id: Pubkey,
    pub accounts: Vec<AccountMeta>,
    pub payload: Vec<u8>,
}

/// The mathematical value of an [`Instruction`].
pub struct InstructionView {
    pub program_id: Pubkey,
    pub accounts: Seq<AccountMeta>,
    pub payload: Seq<u8>,
}

impl View for Instruction {
    type V = InstructionView;

    open spec fn view(&self) -> InstructionView {
        InstructionView {
            program_id: self.program_id,
            accounts: self.accounts@,
            payload: self.payload@,
        }
    }
}

/// Some reference in the list names `key` and asks for write access.
pub open spec fn holds_writable(accounts: Seq<AccountMeta>, key: Pubkey) -> bool {
    exists|i: int| 0 <= i < accounts.len() && (#[trigger] accounts[i]).key == key && accounts[i].is_writable
}

/// Some reference in the list names `key` and asks for signer access.
pub open spec fn holds_signer(accounts: Seq<AccountMeta>, key: Pubkey) -> bool {
    exists|i: int| 0 <= i < accounts.len() && (#[trigger] accounts[i]).key == key && accounts[i].is_signer
}

/// No account is named by two references that both ask for write access.
pub open spec fn distinct_writable(accounts: Seq<AccountMeta>) -> bool {
    forall|i: int, j: int|
        0 <= i < j < accounts.len() && (#[trigger] accounts[i]).is_writable && (#[trigger] accounts[j]).is_writable
            ==> accounts[i].key != accounts[j].key
}

/// No reference in the list asks for write access.
pub open spec fn read_only(accounts: Seq<AccountMeta>) -> bool {
    forall|i: int| 0 <= i < accounts.len() ==> !(#[trigger] accounts[i]).is_writable
}

/// The rules that every instruction meets, whatever program it is for.
pub open spec fn well_formed(i: InstructionView) -> bool {
    &&& i.accounts.len() <= MAX_ACCOUNTS
    &&& i.payload.len() <= MAX_PAYLOAD_LEN
    &&& distinct_writable(i.accounts)
}

pub open spec fn flag_byte(b: bool) -> u8 {
    if b { 1u8 } else { 0u8 }
}

/// The 34 bytes of one account reference: the key, then one byte for each flag.
pub open spec fn wire_meta(m: AccountMeta) -> Seq<u8> {
    m.key.bytes@ + seq![flag_byte(m.is_writable), flag_byte(m.is_signer)]
}

/// The references of a list on the wire, one after the other.
pub open spec fn wire_metas(ms: Seq<AccountMeta>) -> Seq<u8>
    decreases ms.len(),
{
    if ms.len() == 0 {
        Seq::empty()
    } else {
        wire_metas(ms.drop_last()) + wire_meta(ms.last())
    }
}

/// The wire format of an instruction: the 32 bytes of the program identifier,
/// one byte that counts the account references, the references, and the
/// payload, which runs to the end.
pub open spec fn wire(i: InstructionView) -> Seq<u8> {
    i.program_id.bytes@ + seq![i.accounts.len() as u8] + wire_metas(i.accounts) + i.payload
}

/// Each reference takes 34 bytes.
pub proof fn lemma_wire_metas_len(ms: Seq<AccountMeta>)
    ensures
        wire_metas(ms).len() == 34 * ms.len(),
    decreases ms.len(),
{
    if ms.len() > 0 {
        lemma_wire_metas_len(ms.drop_last());
    }
}

/// A reference more adds its 34 bytes at the end.
pub proof fn lemma_wire_metas_push(ms: Seq<AccountMeta>, m: AccountMeta)
    ensures
        wire_metas(ms.push(m)) == wire_metas(ms) + wire_meta(m),
{
    assert(ms.push(m).drop_last() =~= ms);
}

/// The reference at position `i` stands at offset `34 * i` of the list's bytes.
pub proof fn lemma_wire_metas_entry(ms: Seq<AccountMeta>, i: int)
    requires
        0 <= i < ms.len(),
    ensures
        wire_metas(ms).len() == 34 * ms.len(),
        wire_metas(ms).subrange(34 * i, 34 * i + 34) == wire_meta(ms[i]),
    decreases ms.len(),
{
    lemma_wire_metas_len(ms);
    lemma_wire_metas_len(ms.drop_last());
    if i == ms.len() - 1 {
        assert(wire_metas(ms).subrange(34 * i, 34 * i + 34) =~= wire_meta(ms[i]));
    } else {
        lemma_wire_metas_entry(ms.drop_last(), i);
        assert(wire_metas(ms).subrange(34 * i, 34 * i + 34) =~= wire_metas(ms.drop_last()).subrange(
            34 * i,
            34 * i + 34,
        ));
    }
}

/// Where each part of an instruction stands in its wire format.
pub proof fn lemma_wire_layout(v: InstructionView)
    requires
        v.accounts.len() <= MAX_ACCOUNTS,
    ensures
        wire(v).len() == 33 + 34 * v.accounts.len() + v.payload.len(),
        wire(v).subrange(0, 32) == v.program_id.bytes@,
        wire(v)[32] == v.accounts.len(),
        wire(v).subrange(33, 33 + 34 * (v.accounts.len() as int)) == wire_metas(v.accounts),
        wire(v).subrange(33 + 34 * (v.accounts.len() as int), wire(v).len() as int) == v.payload,
        forall|i: int|
            0 <= i < v.accounts.len() ==> #[trigger] wire(v).subrange(33 + 34 * i, 33 + 34 * i + 34)
                == wire_meta(v.accounts[i]),
{
    lemma_wire_metas_len(v.accounts);
    let w = wire(v);
    let n = v.accounts.len() as int;
    assert(w.subrange(0, 32) =~= v.program_id.bytes@);
    assert(w.subrange(33, 33 + 34 * n) =~= wire_metas(v.accounts));
    assert(w.subrange(33 + 34 * n, w.len() as int) =~= v.payload);
    assert forall|i: int| 0 <= i < n implies #[trigger] w.subrange(33 + 34 * i, 33 + 34 * i + 34)
        == wire_meta(v.accounts[i]) by {
        lemma_wire_metas_entry(v.accounts, i);
        assert(w.subrange(33 + 34 * i, 33 + 34 * i + 34) =~= wire_metas(v.accounts).subrange(
            34 * i,
            34 * i + 34,
        ));
    }
}

/// A reference is known from its 34 bytes.
pub proof fn lemma_wire_meta_injective(a: AccountMeta, b: AccountMeta)
    requires
        wire_meta(a) == wire_meta(b),
    ensures
        a == b,
{
    let wa = wire_meta(a);
    let wb = wire_meta(b);
    assert(wa[32] == flag_byte(a.is_writable));
    assert(wb[32] == flag_byte(b.is_writable));
    assert(wa[33] == flag_byte(a.is_signer));
    assert(wb[33] == flag_byte(b.is_signer));
    assert forall|i: int| 0 <= i < 32 implies a.key.bytes[i] == b.key.bytes[i] by {
        assert(wa[i] == a.key.bytes@[i]);
        assert(wb[i] == b.key.bytes@[i]);
    }
    assert(a.key.bytes =~= b.key.bytes);
}

/// Two instructions with at most 255 account references each that have the
/// same wire format are the same instruction: decoding is the inverse of
/// encoding.
pub proof fn lemma_wire_injective(a: InstructionView, b: InstructionView)
    requires
        a.accounts.len() <= MAX_ACCOUNTS,
        b.accounts.len() <= MAX_ACCOUNTS,
        wire(a) == wire(b),
    ensures
        a == b,
{
    lemma_wire_layout(a);
    lemma_wire_layout(b);
    assert(a.program_id.bytes =~= b.program_id.bytes);
    assert(a.accounts.len() == b.accounts.len());
    assert forall|i: int| 0 <= i < a.accounts.len() implies a.accounts[i] == b.accounts[i] by {
        assert(wire(a).subrange(33 + 34 * i, 33 + 34 * i + 34) == wire_meta(a.accounts[i]));
        assert(wire(b).subrange(33 + 34 * i, 33 + 34 * i + 34) == wire_meta(b.accounts[i]));
        lemma_wire_meta_injective(a.accounts[i], b.accounts[i]);
    }
    assert(a.accounts =~= b.accounts);
    assert(a.payload =~= b.payload);
}

/// A copy of the bytes of `src` from `start` up to `end`.
pub fn copy_range(src: &Vec<u8>, start: usize, end: usize) -> (out: Vec<u8>)
    requires
        start <= end <= src.len(),
    ensures
        out@ == src@.subrange(start as int, end as int),
{
    let mut out: Vec<u8> = Vec::new();
    let mut i: usize = start;
    while i < end
        invariant
            start <= i <= end <= src.len(),
            out@ == src@.subrange(start as int, i as int),
        decreases end - i,
    {
        out.push(src[i]);
        assert(src@.subrange(start as int, i + 1) =~= src@.subrange(start as int, i as int).push(src@[i as int]));
        i += 1;
    }
    out
}

/// Whether two byte strings are the same.
pub fn same_bytes(a: &Vec<u8>, b: &Vec<u8>) -> (same: bool)
    ensures
        same == (a@ == b@),
{
    if a.len() != b.len() {
        return false;
    }
    let mut i: usize = 0;
    while i < a.len()
        invariant
            i <= a.len(),
            a.len() == b.len(),
            forall|j: int| 0 <= j < i ==> a[j] == b[j],
        decreases a.len() - i,
    {
        if a[i] != b[i] {
            return false;
        }
        i += 1;
    }
    assert(a@ =~= b@);
    true
}

impl AccountMeta {
    /// Whether two references name the same account with the same flags.
    pub fn equals(&self, other: &AccountMeta) -> (same: bool)
        ensures
            same == (*self == *other),
    {
        self.key.equals(&other.key) && self.is_writable == other.is_writable && self.is_signer
            == other.is_signer
    }
}

/// Whether some reference of the list names `key` with write access.
pub fn list_holds_writable(accounts: &Vec<AccountMeta>, key: &Pubkey) -> (held: bool)
    ensures
        held == holds_writable(accounts@, *key),
{
    let mut i: usize = 0;
    while i < accounts.len()
        invariant
            i <= accounts.len(),
            forall|j: int| 0 <= j < i ==> !((#[trigger] accounts@[j]).key == *key && accounts@[j].is_writable),
        decreases accounts.len() - i,
    {
        if accounts[i].is_writable && accounts[i].key.equals(key) {
            return true;
        }
        i += 1;
    }
    false
}

/// Whether some reference of the list names `key` with signer access.
pub fn list_holds_signer(accounts: &Vec<AccountMeta>, key: &Pubkey) -> (held: bool)
    ensures
        held == holds_signer(accounts@, *key),
{
    let mut i: usize = 0;
    while i < accounts.len()
        invariant
            i <= accounts.len(),
            forall|j: int| 0 <= j < i ==> !((#[trigger] accounts@[j]).key == *key && accounts@[j].is_signer),
        decreases accounts.len() - i,
    {
        if accounts[i].is_signer && accounts[i].key.equals(key) {
            return true;
        }
        i += 1;
    }
    false
}

/// Whether no account is named twice with write access.
pub fn list_distinct_writable(accounts: &Vec<AccountMeta>) -> (distinct: bool)
    ensures
        distinct == distinct_writable(accounts@),
{
    let mut j: usize = 0;
    while j < accounts.len()
        invariant
            j <= accounts.len(),
            distinct_writable(accounts@.take(j as int)),
        decreases accounts.len() - j,
    {
        if accounts[j].is_writable {
            let mut i: usize = 0;
            while i < j
                invariant
                    i <= j < accounts.len(),
                    accounts@[j as int].is_writable,
                    forall|k: int|
                        0 <= k < i && (#[trigger] accounts@[k]).is_writable ==> accounts@[k].key
                            != accounts@[j as int].key,
                decreases j - i,
            {
                if accounts[i].is_writable && accounts[i].key.equals(&accounts[j].key) {
                    assert(!distinct_writable(accounts@));
                    return false;
                }
                i += 1;
            }
        }
        assert forall|a: int, b: int|
            0 <= a < b < j + 1 && (#[trigger] accounts@.take(j + 1)[a]).is_writable && (
            #[trigger] accounts@.take(j + 1)[b]).is_writable implies accounts@.take(j + 1)[a].key
            != accounts@.take(j + 1)[b].key by {
            if b < j {
                assert(accounts@.take(j as int)[a].is_writable);
                assert(accounts@.take(j as int)[b].is_writable);
            }
        }
        j += 1;
    }
    assert(accounts@.take(j as int) =~= accounts@);
    true
}

impl Instruction {
    /// Whether the instruction names `key` with write access.
    pub fn holds_writable(&self, key: &Pubkey) -> (held: bool)
        ensures
            held == holds_writable(self@.accounts, *key),
    {
        list_holds_writable(&self.accounts, key)
    }

    /// Whether the instruction names `key` with signer access.
    pub fn holds_signer(&self, key: &Pubkey) -> (held: bool)
        ensures
            held == holds_signer(self@.accounts, *key),
    {
        list_holds_signer(&self.accounts, key)
    }

    /// Checks the rules that hold of every instruction: at most 255 account
    /// references, a payload within its bound, and no account named twice
    /// with write access.
    pub fn validate(&self) -> (r: Result<(), ExecError>)
        ensures
            r is Ok <==> well_formed(self@),
            r is Err ==> r == Err::<(), ExecError>(ExecError::MalformedInstruction),
    {
        if self.accounts.len() > MAX_ACCOUNTS || self.payload.len() > MAX_PAYLOAD_LEN {
            return Err(ExecError::MalformedInstruction);
        }
        if !list_distinct_writable(&self.accounts) {
            return Err(ExecError::MalformedInstruction);
        }
        Ok(())
    }

    /// Whether two instructions have the same target, references and payload.
    pub fn equals(&self, other: &Instruction) -> (same: bool)
        ensures
            same == (self@ == other@),
    {
        if !self.program_id.equals(&other.program_id) || self.accounts.len() != other.accounts.len() {
            return false;
        }
        let mut i: usize = 0;
        while i < self.accounts.len()
            invariant
                i <= self.accounts.len(),
                self.accounts.len() == other.accounts.len(),
                forall|j: int| 0 <= j < i ==> self.accounts@[j] == other.accounts@[j],
            decreases self.accounts.len() - i,
        {
            if !self.accounts[i].equals(&other.accounts[i]) {
                return false;
            }
            i += 1;
        }
        assert(self.accounts@ =~= other.accounts@);
        same_bytes(&self.payload, &other.payload)
    }

    /// A copy of the instruction.
    pub fn duplicate(&self) -> (copy: Instruction)
        ensures
            copy@ == self@,
    {
        let mut accounts: Vec<AccountMeta> = Vec::new();
        let mut i: usize = 0;
        while i < self.accounts.len()
            invariant
                i <= self.accounts.len(),
                accounts@ == self.accounts@.take(i as int),
            decreases self.accounts.len() - i,
        {
            accounts.push(self.accounts[i]);
            assert(self.accounts@.take(i + 1) =~= self.accounts@.take(i as int).push(self.accounts@[i as int]));
            i += 1;
        }
        assert(self.accounts@.take(i as int) =~= self.accounts@);
        let payload = copy_range(&self.payload, 0, self.payload.len());
        assert(self.payload@.subrange(0, self.payload.len() as int) =~= self.payload@);
        Instruction { program_id: self.program_id, accounts, payload }
    }

    /// The wire format of the instruction, or `MalformedInstruction` where it
    /// breaks one of the rules of [`Instruction::validate`].
    pub fn encode(&self) -> (r: Result<Vec<u8>, ExecError>)
        ensures
            match r {
                Ok(raw) => well_formed(self@) && raw@ == wire(self@),
                Err(e) => e == ExecError::MalformedInstruction && !well_formed(self@),
            },
    {
        if self.validate().is_err() {
            return Err(ExecError::MalformedInstruction);
        }
        let mut raw: Vec<u8> = Vec::new();
        self.program_id.write(&mut raw);
        raw.push(self.accounts.len() as u8);
        let ghost head = raw@;
        let mut i: usize = 0;
        while i < self.accounts.len()
            invariant
                i <= self.accounts.len(),
                raw@ == head + wire_metas(self.accounts@.take(i as int)),
            decreases self.accounts.len() - i,
        {
            let m = self.accounts[i];
            let ghost before = raw@;
            m.key.write(&mut raw);
            raw.push(if m.is_writable { 1u8 } else { 0u8 });
            raw.push(if m.is_signer { 1u8 } else { 0u8 });
            proof {
                assert(raw@ =~= before + wire_meta(m));
                lemma_wire_metas_push(self.accounts@.take(i as int), m);
                assert(self.accounts@.take(i + 1) =~= self.accounts@.take(i as int).push(m));
            }
            i += 1;
        }
        assert(self.accounts@.take(i as int) =~= self.accounts@);
        let mut k: usize = 0;
        let ghost metas_done = raw@;
        while k < self.payload.len()
            invariant
                k <= self.payload.len(),
                raw@ == metas_done + self.payload@.take(k as int),
            decreases self.payload.len() - k,
        {
            raw.push(self.payload[k]);
            assert(self.payload@.take(k + 1) =~= self.payload@.take(k as int).push(self.payload@[k as int]));
            k += 1;
        }
        assert(self.payload@.take(k as int) =~= self.payload@);
        Ok(raw)
    }

    /// Reads an instruction from its wire format. The bytes are accepted if
    /// and only if they are the wire format of an instruction that meets the
    /// rules of [`Instruction::validate`], and that instruction is returned.
    pub fn decode(raw: &Vec<u8>) -> (r: Result<Instruction, ExecError>)
        ensures
            match r {
                Ok(i) => well_formed(i@) && wire(i@) == raw@,
                Err(e) => e == ExecError::MalformedInstruction && forall|v: InstructionView|
                    well_formed(v) ==> #[trigger] wire(v) != raw@,
            },
    {
        if raw.len() < HEADER_LEN {
            proof {
                assert forall|v: InstructionView| well_formed(v) implies #[trigger] wire(v) != raw@ by {
                    lemma_wire_layout(v);
                }
            }
            return Err(ExecError::MalformedInstruction);
        }
        let program_id = Pubkey::read(raw, 0);
        let count: usize = raw[32] as usize;
        if (raw.len() - HEADER_LEN) / META_LEN < count {
            proof {
                assert forall|v: InstructionView| well_formed(v) implies #[trigger] wire(v) != raw@ by {
                    lemma_wire_layout(v);
                }
            }
            return Err(ExecError::MalformedInstruction);
        }
        let mut accounts: Vec<AccountMeta> = Vec::new();
        let mut i: usize = 0;
        while i < count
            invariant
                i <= count <= 255,
                33 + 34 * count <= raw.len(),
                count == raw@[32],
                accounts@.len() == i,
                wire_metas(accounts@) == raw@.subrange(33, 33 + 34 * i),
                forall|v: InstructionView|
                    well_formed(v) && #[trigger] wire(v) == raw@ ==> v.accounts.len() == count
                        && v.accounts.take(i as int) == accounts@,
            decreases count - i,
        {
            proof {
                assert forall|v: InstructionView| well_formed(v) && #[trigger] wire(v) == raw@ implies
                    v.accounts.len() == count by {
                    lemma_wire_layout(v);
                }
            }
            let p: usize = HEADER_LEN + META_LEN * i;
            let key = Pubkey::read(raw, p);
            let w: u8 = raw[p + 32];
            let s: u8 = raw[p + 33];
            if w > 1 || s > 1 {
                proof {
                    assert forall|v: InstructionView| well_formed(v) implies #[trigger] wire(v) != raw@ by {
                        if wire(v) == raw@ {
                            lemma_wire_layout(v);
                            let e = wire(v).subrange(33 + 34 * i, 33 + 34 * i + 34);
                            assert(e == wire_meta(v.accounts[i as int]));
                            assert(e[32] == w);
                            assert(e[33] == s);
                        }
                    }
                }
                return Err(ExecError::MalformedInstruction);
            }
            let m = AccountMeta { key, is_writable: w == 1, is_signer: s == 1 };
            proof {
                let e = raw@.subrange(p as int, p + 34);
                assert(e =~= wire_meta(m)) by {
                    assert(raw@.subrange(p as int, p + 32) =~= e.subrange(0, 32));
                }
                lemma_wire_metas_push(accounts@, m);
                assert(raw@.subrange(33, 33 + 34 * (i + 1)) =~= raw@.subrange(33, 33 + 34 * i) + e);
                assert forall|v: InstructionView| well_formed(v) && #[trigger] wire(v) == raw@ implies
                    v.accounts.take(i + 1) == accounts@.push(m) by {
                    lemma_wire_layout(v);
                    assert(wire(v).subrange(33 + 34 * i, 33 + 34 * i + 34) == wire_meta(
                        v.accounts[i as int],
                    ));
                    lemma_wire_meta_injective(v.accounts[i as int], m);
                    assert(v.accounts.take(i + 1) =~= v.accounts.take(i as int).push(v.accounts[i as int]));
                }
            }
            accounts.push(m);
            i += 1;
        }
        let start: usize = HEADER_LEN + META_LEN * count;
        proof {
            assert forall|v: InstructionView| well_formed(v) && #[trigger] wire(v) == raw@ implies v.accounts
                == accounts@ && v.payload == raw@.subrange(start as int, raw.len() as int) by {
                lemma_wire_layout(v);
                assert(v.accounts.take(count as int) =~= v.accounts);
            }
        }
        if raw.len() - start > MAX_PAYLOAD_LEN {
            return Err(ExecError::MalformedInstruction);
        }
        if !list_distinct_writable(&accounts) {
            return Err(ExecError::MalformedInstruction);
        }
        let payload = copy_range(raw, start, raw.len());
        let instr = Instruction { program_id, accounts, payload };
        proof {
            lemma_wire_metas_len(instr@.accounts);
            assert(wire(instr@) =~= raw@) by {
                assert(raw@ =~= raw@.subrange(0, 32) + seq![raw@[32]] + raw@.subrange(33, start as int)
                    + raw@.subrange(start as int, raw.len() as int));
            }
        }
        Ok(instr)
    }
}

} // verus!

use vstd::prelude::*;
use crate::error::ExecError;
use crate::frame::CallFrame;
use crate::instruction::{copy_range, holds_writable};
use crate::key::Pubkey;

verus! {

/// An addressable unit of persistent state with an owning program.
#[derive(Clone, Debug, PartialEq, Eq)]
pub struct Account {
    pub key: Pubkey,
    pub owner: Pubkey,
    pub data: Vec<u8>,
}

/// The mathematical value of an [`Account`].
pub struct AccountView {
    pub key: Pubkey,
    pub owner: Pubkey,
    pub data: Seq<u8>,
}

impl View for Account {
    type V = AccountView;

    open spec fn view(&self) -> AccountView {
        AccountView { key: self.key, owner: self.owner, data: self.data@ }
    }
}

/// A write that waits for the commit of the call tree that made it.
#[derive(Clone, Debug, PartialEq, Eq)]
pub struct StagedWrite {
    /// Identifier of the top-level frame of the call tree.
    pub frame_id: u64,
    pub key: Pubkey,
    pub data: Vec<u8>,
}

/// The mathematical value of a [`StagedWrite`].
pub struct StagedWriteView {
    pub frame_id: u64,
    pub key: Pubkey,
    pub data: Seq<u8>,
}

impl View for StagedWrite {
    type V = StagedWriteView;

    open spec fn view(&self) -> StagedWriteView {
        StagedWriteView { frame_id: self.frame_id, key: self.key, data: self.data@ }
    }
}

/// Key-addressed storage of accounts. A write is first staged under the
/// identifier of a top-level frame; reads never see a staged write. `commit`
/// applies what was staged under one identifier, `discard` drops it.
#[derive(Debug)]
pub struct AccountStore {
    accounts: Vec<Account>,
    staged: Vec<StagedWrite>,
}

/// The mathematical value of an [`AccountStore`]: the committed accounts, in
/// the order in which they were provisioned, and the staged writes, oldest
/// first.
pub struct StoreView {
    pub accounts: Seq<AccountView>,
    pub staged: Seq<StagedWriteView>,
}

pub open spec fn accounts_view(accounts: Seq<Account>) -> Seq<AccountView> {
    Seq::new(accounts.len(), |i: int| accounts[i]@)
}

pub open spec fn staged_view(staged: Seq<StagedWrite>) -> Seq<StagedWriteView> {
    Seq::new(staged.len(), |i: int| staged[i]@)
}

/// Some account of the list has the key.
pub open spec fn has_key(accounts: Seq<AccountView>, key: Pubkey) -> bool {
    exists|i: int| 0 <= i < accounts.len() && (#[trigger] accounts[i]).key == key
}

/// No two accounts of the list have the same key.
pub open spec fn distinct_keys(accounts: Seq<AccountView>) -> bool {
    forall|i: int, j: int|
        0 <= i < j < accounts.len() ==> (#[trigger] accounts[i]).key != (#[trigger] accounts[j]).key
}

/// The accounts after the payload of the one with the key `key`, if there is
/// one, was replaced by `data`.
pub open spec fn write_account(accounts: Seq<AccountView>, key: Pubkey, data: Seq<u8>) -> Seq<AccountView> {
    Seq::new(
        accounts.len(),
        |i: int|
            if accounts[i].key == key {
                AccountView { key: accounts[i].key, owner: accounts[i].owner, data: data }
            } else {
                accounts[i]
            },
    )
}

/// The accounts after the writes were applied, the oldest first.
pub open spec fn apply_writes(accounts: Seq<AccountView>, writes: Seq<StagedWriteView>) -> Seq<AccountView>
    decreases writes.len(),
{
    if writes.len() == 0 {
        accounts
    } else {
        write_account(apply_writes(accounts, writes.drop_last()), writes.last().key, writes.last().data)
    }
}

/// The staged writes that are buffered under `frame_id`, in their order.
pub open spec fn writes_of(staged: Seq<StagedWriteView>, frame_id: u64) -> Seq<StagedWriteView>
    decreases staged.len(),
{
    if staged.len() == 0 {
        Seq::empty()
    } else if staged.last().frame_id == frame_id {
        writes_of(staged.drop_last(), frame_id).push(staged.last())
    } else {
        writes_of(staged.drop_last(), frame_id)
    }
}

/// The staged writes that are buffered under another identifier than
/// `frame_id`, in their order.
pub open spec fn writes_but(staged: Seq<StagedWriteView>, frame_id: u64) -> Seq<StagedWriteView>
    decreases staged.len(),
{
    if staged.len() == 0 {
        Seq::empty()
    } else if staged.last().frame_id == frame_id {
        writes_but(staged.drop_last(), frame_id)
    } else {
        writes_but(staged.drop_last(), frame_id).push(staged.last())
    }
}

/// The store after the writes staged under `frame_id` were applied.
pub open spec fn committed(s: StoreView, frame_id: u64) -> StoreView {
    StoreView {
        accounts: apply_writes(s.accounts, writes_of(s.staged, frame_id)),
        staged: writes_but(s.staged, frame_id),
    }
}

/// The store after the writes staged under `frame_id` were dropped.
pub open spec fn discarded(s: StoreView, frame_id: u64) -> StoreView {
    StoreView { accounts: s.accounts, staged: writes_but(s.staged, frame_id) }
}

/// The keys and owners of two lists of accounts agree, position by position.
pub open spec fn same_identities(a: Seq<AccountView>, b: Seq<AccountView>) -> bool {
    &&& a.len() == b.len()
    &&& forall|i: int| 0 <= i < a.len() ==> (#[trigger] a[i]).key == b[i].key && a[i].owner == b[i].owner
}

/// Some write of the list is for the key.
pub open spec fn writes_touch(writes: Seq<StagedWriteView>, key: Pubkey) -> bool {
    exists|i: int| 0 <= i < writes.len() && (#[trigger] writes[i]).key == key
}

/// A write more goes to the one side or to the other, by its identifier.
pub proof fn lemma_writes_push(staged: Seq<StagedWriteView>, w: StagedWriteView, frame_id: u64)
    ensures
        writes_of(staged.push(w), frame_id) == if w.frame_id == frame_id {
            writes_of(staged, frame_id).push(w)
        } else {
            writes_of(staged, frame_id)
        },
        writes_but(staged.push(w), frame_id) == if w.frame_id == frame_id {
            writes_but(staged, frame_id)
        } else {
            writes_but(staged, frame_id).push(w)
        },
{
    assert(staged.push(w).drop_last() =~= staged);
}

/// Nothing that is left after a discard is buffered under the identifier.
pub proof fn lemma_writes_but_clean(staged: Seq<StagedWriteView>, frame_id: u64)
    ensures
        forall|i: int|
            0 <= i < writes_but(staged, frame_id).len() ==> (#[trigger] writes_but(staged, frame_id)[i]).frame_id
                != frame_id,
        forall|i: int|
            0 <= i < writes_of(staged, frame_id).len() ==> (#[trigger] writes_of(staged, frame_id)[i]).frame_id
                == frame_id,
    decreases staged.len(),
{
    if staged.len() > 0 {
        let rest = staged.drop_last();
        lemma_writes_but_clean(rest, frame_id);
        let but = writes_but(staged, frame_id);
        let of = writes_of(staged, frame_id);
        assert forall|i: int| 0 <= i < but.len() implies (#[trigger] but[i]).frame_id != frame_id by {
            if i < writes_but(rest, frame_id).len() {
                assert(but[i] == writes_but(rest, frame_id)[i]);
            }
        }
        assert forall|i: int| 0 <= i < of.len() implies (#[trigger] of[i]).frame_id == frame_id by {
            if i < writes_of(rest, frame_id).len() {
                assert(of[i] == writes_of(rest, frame_id)[i]);
            }
        }
    }
}

/// Where nothing is buffered under the identifier, there is nothing to apply
/// and nothing to drop.
pub proof fn lemma_writes_absent(staged: Seq<StagedWriteView>, frame_id: u64)
    requires
        forall|i: int| 0 <= i < staged.len() ==> (#[trigger] staged[i]).frame_id != frame_id,
    ensures
        writes_but(staged, frame_id) == staged,
        writes_of(staged, frame_id) == Seq::<StagedWriteView>::empty(),
    decreases staged.len(),
{
    if staged.len() > 0 {
        lemma_writes_absent(staged.drop_last(), frame_id);
        assert(staged.drop_last().push(staged.last()) =~= staged);
    }
}

/// Where everything is buffered under the identifier, all of it is applied
/// by a commit, and nothing is left.
pub proof fn lemma_writes_all(staged: Seq<StagedWriteView>, frame_id: u64)
    requires
        forall|i: int| 0 <= i < staged.len() ==> (#[trigger] staged[i]).frame_id == frame_id,
    ensures
        writes_of(staged, frame_id) == staged,
        writes_but(staged, frame_id) == Seq::<StagedWriteView>::empty(),
    decreases staged.len(),
{
    if staged.len() > 0 {
        lemma_writes_all(staged.drop_last(), frame_id);
        assert(staged.drop_last().push(staged.last()) =~= staged);
    } else {
        assert(staged =~= Seq::<StagedWriteView>::empty());
    }
}

/// A discard restores the state before the call: where nothing was staged
/// under the identifier, and a call tree then staged writes under it, the
/// discard leaves the store exactly as it was before the tree ran.
pub proof fn lemma_discard_restores(s: StoreView, added: Seq<StagedWriteView>, frame_id: u64)
    requires
        forall|i: int| 0 <= i < s.staged.len() ==> (#[trigger] s.staged[i]).frame_id != frame_id,
        forall|i: int| 0 <= i < added.len() ==> (#[trigger] added[i]).frame_id == frame_id,
    ensures
        discarded(StoreView { accounts: s.accounts, staged: s.staged + added }, frame_id) == s,
    decreases added.len(),
{
    if added.len() == 0 {
        assert(s.staged + added =~= s.staged);
        lemma_writes_absent(s.staged, frame_id);
    } else {
        let rest = added.drop_last();
        lemma_discard_restores(s, rest, frame_id);
        assert((s.staged + added).drop_last() =~= s.staged + rest);
    }
}

/// Discarding is idempotent: to discard again what was staged under an
/// identifier changes nothing.
pub proof fn lemma_discard_idempotent(s: StoreView, frame_id: u64)
    ensures
        discarded(discarded(s, frame_id), frame_id) == discarded(s, frame_id),
{
    lemma_writes_but_clean(s.staged, frame_id);
    lemma_writes_absent(writes_but(s.staged, frame_id), frame_id);
}

/// After a commit nothing is left under the identifier: a discard, or a second
/// commit, then changes nothing.
pub proof fn lemma_commit_settles(s: StoreView, frame_id: u64)
    ensures
        discarded(committed(s, frame_id), frame_id) == committed(s, frame_id),
        committed(committed(s, frame_id), frame_id) == committed(s, frame_id),
{
    lemma_writes_but_clean(s.staged, frame_id);
    lemma_writes_absent(writes_but(s.staged, frame_id), frame_id);
}

/// Writes change payloads only: every account keeps its place, its key and its
/// owner, and an account that no write is for keeps its payload too.
pub proof fn lemma_apply_writes_frame(accounts: Seq<AccountView>, writes: Seq<StagedWriteView>)
    ensures
        same_identities(apply_writes(accounts, writes), accounts),
        distinct_keys(accounts) ==> distinct_keys(apply_writes(accounts, writes)),
        forall|i: int|
            0 <= i < accounts.len() && !writes_touch(writes, (#[trigger] accounts[i]).key) ==> apply_writes(
                accounts,
                writes,
            )[i] == accounts[i],
    decreases writes.len(),
{
    if writes.len() > 0 {
        let rest = writes.drop_last();
        lemma_apply_writes_frame(accounts, rest);
        let mid = apply_writes(accounts, rest);
        let out = apply_writes(accounts, writes);
        assert forall|i: int| 0 <= i < accounts.len() && !writes_touch(writes, (#[trigger] accounts[i]).key) implies out[i]
            == accounts[i] by {
            assert(writes[writes.len() - 1].key != accounts[i].key);
            if writes_touch(rest, accounts[i].key) {
                let k = choose|k: int| 0 <= k < rest.len() && (#[trigger] rest[k]).key == accounts[i].key;
                assert(writes[k].key == accounts[i].key);
            }
        }
        if distinct_keys(accounts) {
            assert forall|i: int, j: int| 0 <= i < j < out.len() implies (#[trigger] out[i]).key != (
            #[trigger] out[j]).key by {
                assert(mid[i].key == accounts[i].key);
                assert(mid[j].key == accounts[j].key);
            }
        }
    }
}

/// An account that a write is for holds, after the writes were applied, the
/// bytes of the last such write.
pub proof fn lemma_apply_writes_last(accounts: Seq<AccountView>, writes: Seq<StagedWriteView>, i: int, k: int)
    requires
        0 <= i < accounts.len(),
        0 <= k < writes.len(),
        writes[k].key == accounts[i].key,
        forall|j: int| k < j < writes.len() ==> (#[trigger] writes[j]).key != accounts[i].key,
    ensures
        apply_writes(accounts, writes)[i].data == writes[k].data,
    decreases writes.len(),
{
    lemma_apply_writes_frame(accounts, writes.drop_last());
    if k < writes.len() - 1 {
        assert(writes[writes.len() - 1].key != accounts[i].key);
        lemma_apply_writes_last(accounts, writes.drop_last(), i, k);
    }
}

impl View for AccountStore {
    type V = StoreView;

    closed spec fn view(&self) -> StoreView {
        StoreView { accounts: accounts_view(self.accounts@), staged: staged_view(self.staged@) }
    }
}

impl AccountStore {
    /// The invariant of the store: no two accounts have the same key.
    pub open spec fn wf(&self) -> bool {
        distinct_keys(self@.accounts)
    }

    /// A store without accounts and without staged writes.
    pub fn new() -> (s: AccountStore)
        ensures
            s.wf(),
            s@.accounts == Seq::<AccountView>::empty(),
            s@.staged == Seq::<StagedWriteView>::empty(),
    {
        let s = AccountStore { accounts: Vec::new(), staged: Vec::new() };
        assert(s@.accounts =~= Seq::<AccountView>::empty());
        assert(s@.staged =~= Seq::<StagedWriteView>::empty());
        s
    }

    /// Number of accounts in the store.
    pub fn len(&self) -> (n: usize)
        ensures
            n == self@.accounts.len(),
    {
        self.accounts.len()
    }

    /// Number of writes that wait for a commit or a discard.
    pub fn staged_len(&self) -> (n: usize)
        ensures
            n == self@.staged.len(),
    {
        self.staged.len()
    }

    fn position(&self, key: &Pubkey) -> (r: Option<usize>)
        ensures
            match r {
                Some(i) => i < self@.accounts.len() && self@.accounts[i as int].key == *key,
                None => !has_key(self@.accounts, *key),
            },
    {
        let mut i: usize = 0;
        while i < self.accounts.len()
            invariant
                i <= self.accounts.len(),
                forall|j: int| 0 <= j < i ==> (#[trigger] self@.accounts[j]).key != *key,
            decreases self.accounts.len() - i,
        {
            if self.accounts[i].key.equals(key) {
                return Some(i);
            }
            i += 1;
        }
        None
    }

    /// Adds an account, as the provisioning step outside this core does. An
    /// account whose key is already in the store is refused, and the store is
    /// left as it was.
    pub fn provision(&mut self, account: Account) -> (added: bool)
        requires
            old(self).wf(),
        ensures
            final(self).wf(),
            added == !has_key(old(self)@.accounts, account.key),
            final(self)@.staged == old(self)@.staged,
            final(self)@.accounts == if added {
                old(self)@.accounts.push(account@)
            } else {
                old(self)@.accounts
            },
    {
        if self.position(&account.key).is_some() {
            return false;
        }
        let ghost before = self@.accounts;
        self.accounts.push(account);
        proof {
            assert(self@.accounts =~= before.push(account@));
            assert(self@.staged =~= old(self)@.staged);
        }
        true
    }

    /// The committed account with the key, or `NotFound`. A staged write does
    /// not show in it.
    pub fn get(&self, key: &Pubkey) -> (r: Result<&Account, ExecError>)
        requires
            self.wf(),
        ensures
            match r {
                Ok(a) => exists|i: int|
                    0 <= i < self@.accounts.len() && #[trigger] self@.accounts[i] == a@ && a.key == *key,
                Err(e) => e == ExecError::NotFound && !has_key(self@.accounts, *key),
            },
    {
        match self.position(key) {
            Some(i) => {
                assert(self@.accounts[i as int] == self.accounts@[i as int]@);
                Ok(&self.accounts[i])
            },
            None => Err(ExecError::NotFound),
        }
    }

    /// Buffers a write of `bytes` to the account `key` under the call tree of
    /// `frame`. The frame is authorized if its instruction names the account
    /// with write access; any other frame gets `PermissionDenied`, and the
    /// store is left as it was.
    pub fn stage_write(&mut self, key: &Pubkey, bytes: Vec<u8>, frame: &CallFrame) -> (r: Result<(), ExecError>)
        ensures
            final(self)@.accounts == old(self)@.accounts,
            holds_writable(frame@.instruction.accounts, *key) ==> r is Ok && final(self)@.staged == old(
                self,
            )@.staged.push(StagedWriteView { frame_id: frame.root_id, key: *key, data: bytes@ }),
            !holds_writable(frame@.instruction.accounts, *key) ==> r == Err::<(), ExecError>(
                ExecError::PermissionDenied,
            ) && final(self)@.staged == old(self)@.staged,
    {
        if !frame.instruction.holds_writable(key) {
            return Err(ExecError::PermissionDenied);
        }
        let ghost w = StagedWriteView { frame_id: frame.root_id, key: *key, data: bytes@ };
        self.staged.push(StagedWrite { frame_id: frame.root_id, key: *key, data: bytes });
        proof {
            assert(self@.staged =~= old(self)@.staged.push(w));
            assert(self@.accounts =~= old(self)@.accounts);
        }
        Ok(())
    }

    /// The writes that are staged under `frame_id`, oldest first, as copies.
    pub fn pending(&self, frame_id: u64) -> (writes: Vec<StagedWrite>)
        ensures
            staged_view(writes@) == writes_of(self@.staged, frame_id),
    {
        let mut writes: Vec<StagedWrite> = Vec::new();
        let mut i: usize = 0;
        assert(self@.staged.take(0) =~= Seq::<StagedWriteView>::empty());
        assert(staged_view(writes@) =~= Seq::<StagedWriteView>::empty());
        while i < self.staged.len()
            invariant
                i <= self.staged.len(),
                staged_view(writes@) == writes_of(self@.staged.take(i as int), frame_id),
            decreases self.staged.len() - i,
        {
            let ghost w = self@.staged[i as int];
            let ghost before = staged_view(writes@);
            proof {
                lemma_writes_push(self@.staged.take(i as int), w, frame_id);
                assert(self@.staged.take(i + 1) =~= self@.staged.take(i as int).push(w));
            }
            if self.staged[i].frame_id == frame_id {
                let data = copy_range(&self.staged[i].data, 0, self.staged[i].data.len());
                assert(data@ =~= self.staged[i as int].data@);
                writes.push(StagedWrite { frame_id, key: self.staged[i].key, data });
                assert(staged_view(writes@) =~= before.push(w));
            }
            i += 1;
        }
        assert(self@.staged.take(i as int) =~= self@.staged);
        writes
    }

    /// Drops every write that is staged under `frame_id`. Where none is, the
    /// store is left as it was: to discard twice is no error.
    pub fn discard(&mut self, frame_id: u64)
        ensures
            final(self)@ == discarded(old(self)@, frame_id),
    {
        let mut kept: Vec<StagedWrite> = Vec::new();
        let mut all: Vec<StagedWrite> = Vec::new();
        core::mem::swap(&mut self.staged, &mut all);
        let ghost before = staged_view(all@);
        assert(before =~= old(self)@.staged);
        assert(before.take(0) =~= Seq::<StagedWriteView>::empty());
        assert(staged_view(kept@) =~= Seq::<StagedWriteView>::empty());
        let n: usize = all.len();
        let mut i: usize = 0;
        while i < n
            invariant
                i <= n == all.len(),
                staged_view(all@) == before,
                staged_view(kept@) == writes_but(before.take(i as int), frame_id),
            decreases n - i,
        {
            let ghost w = before[i as int];
            let ghost done = staged_view(kept@);
            proof {
                lemma_writes_push(before.take(i as int), w, frame_id);
                assert(before.take(i + 1) =~= before.take(i as int).push(w));
                assert(w == all@[i as int]@);
            }
            if all[i].frame_id != frame_id {
                let data = copy_range(&all[i].data, 0, all[i].data.len());
                assert(data@ =~= all[i as int].data@);
                kept.push(StagedWrite { frame_id: all[i].frame_id, key: all[i].key, data });
                assert(staged_view(kept@) =~= done.push(w));
            }
            i += 1;
        }
        assert(before.take(i as int) =~= before);
        self.staged = kept;
        assert(self@.accounts =~= old(self)@.accounts);
    }

    /// Applies every write that is staged under `frame_id`, the oldest first,
    /// and drops them from the buffer. A write to a key that no account has
    /// changes nothing.
    pub fn commit(&mut self, frame_id: u64)
        requires
            old(self).wf(),
        ensures
            final(self).wf(),
            final(self)@ == committed(old(self)@, frame_id),
    {
        let mut kept: Vec<StagedWrite> = Vec::new();
        let mut all: Vec<StagedWrite> = Vec::new();
        core::mem::swap(&mut self.staged, &mut all);
        let ghost before = staged_view(all@);
        let ghost start = old(self)@.accounts;
        assert(before =~= old(self)@.staged);
        assert(before.take(0) =~= Seq::<StagedWriteView>::empty());
        assert(staged_view(kept@) =~= Seq::<StagedWriteView>::empty());
        assert(self@.accounts =~= start);
        let n: usize = all.len();
        let mut i: usize = 0;
        while i < n
            invariant
                i <= n == all.len(),
                staged_view(all@) == before,
                distinct_keys(start),
                staged_view(kept@) == writes_but(before.take(i as int), frame_id),
                accounts_view(self.accounts@) == apply_writes(start, writes_of(before.take(i as int), frame_id)),
            decreases n - i,
        {
            let ghost w = before[i as int];
            let ghost done = staged_view(kept@);
            let ghost now = accounts_view(self.accounts@);
            proof {
                lemma_writes_push(before.take(i as int), w, frame_id);
                assert(before.take(i + 1) =~= before.take(i as int).push(w));
                assert(w == all@[i as int]@);
                lemma_apply_writes_frame(start, writes_of(before.take(i as int), frame_id));
                assert(writes_of(before.take(i as int), frame_id).push(w).drop_last() =~= writes_of(
                    before.take(i as int),
                    frame_id,
                ));
            }
            let data = copy_range(&all[i].data, 0, all[i].data.len());
            assert(data@ =~= all[i as int].data@);
            if all[i].frame_id != frame_id {
                kept.push(StagedWrite { frame_id: all[i].frame_id, key: all[i].key, data });
                assert(staged_view(kept@) =~= done.push(w));
            } else {
                let key = all[i].key;
                let mut j: usize = 0;
                let mut found: bool = false;
                while j < self.accounts.len() && !found
                    invariant
                        j <= self.accounts.len(),
                        accounts_view(self.accounts@) == now,
                        found ==> j < self.accounts.len() && now[j as int].key == key,
                        forall|k: int| 0 <= k < j ==> (#[trigger] now[k]).key != key,
                    decreases self.accounts.len() - j + if found { 0int } else { 1int },
                {
                    assert(now[j as int] == self.accounts@[j as int]@);
                    if self.accounts[j].key.equals(&key) {
                        found = true;
                    } else {
                        j += 1;
                    }
                }
                if found {
                    assert(now[j as int] == self.accounts@[j as int]@);
                    let owner = self.accounts[j].owner;
                    self.accounts.set(j, Account { key, owner, data });
                    assert(accounts_view(self.accounts@) =~= write_account(now, w.key, w.data)) by {
                        assert forall|k: int| 0 <= k < now.len() implies #[trigger] accounts_view(self.accounts@)[k]
                            == write_account(now, w.key, w.data)[k] by {
                            if k != j {
                                assert(now[k].key != now[j as int].key);
                            }
                        }
                    }
                } else {
                    assert(write_account(now, w.key, w.data) =~= now);
                }
            }
            i += 1;
        }
        assert(before.take(i as int) =~= before);
        self.staged = kept;
        proof {
            lemma_apply_writes_frame(start, writes_of(before, frame_id));
        }
    }
}

} // verus!

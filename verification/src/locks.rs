//! Account-level locks for pipelines that execute top-level instructions side
//! by side: an instruction begins once it holds an exclusive lock on every
//! account that it marks writable and a shared lock on every other account
//! that it names.

use vstd::prelude::*;
use crate::instruction::AccountMeta;
use crate::key::Pubkey;

verus! {

/// A lock that a top-level instruction holds on one account.
#[derive(Clone, Copy, Debug, PartialEq, Eq)]
pub struct Lock {
    /// Identifier of the top-level frame of the instruction.
    pub holder: u64,
    pub key: Pubkey,
    /// Whether the lock is for writing; a shared lock is for reading.
    pub exclusive: bool,
}

/// The locks that are held, in the order in which they were granted.
#[derive(Debug)]
pub struct LockTable {
    held: Vec<Lock>,
}

/// The lock stands in the way of the reference, asked for by `holder`: it is
/// held by another instruction on the same account, and one of the two is for
/// writing.
pub open spec fn blocks(l: Lock, holder: u64, m: AccountMeta) -> bool {
    l.holder != holder && l.key == m.key && (l.exclusive || m.is_writable)
}

/// Some lock that is held stands in the way of some reference of the list.
pub open spec fn conflicts(held: Seq<Lock>, holder: u64, accounts: Seq<AccountMeta>) -> bool {
    exists|i: int, j: int|
        0 <= i < held.len() && 0 <= j < accounts.len() && blocks(#[trigger] held[i], holder, #[trigger] accounts[j])
}

/// The locks that an instruction needs: one for each reference, exclusive
/// where the reference is writable.
pub open spec fn locks_for(holder: u64, accounts: Seq<AccountMeta>) -> Seq<Lock> {
    Seq::new(
        accounts.len(),
        |j: int| Lock { holder: holder, key: accounts[j].key, exclusive: accounts[j].is_writable },
    )
}

/// No account is locked by two instructions unless both locks are shared.
pub open spec fn compatible(held: Seq<Lock>) -> bool {
    forall|a: int, b: int|
        0 <= a < held.len() && 0 <= b < held.len() && (#[trigger] held[a]).key == (#[trigger] held[b]).key
            && held[a].holder != held[b].holder ==> !held[a].exclusive && !held[b].exclusive
}

/// The locks that are left when `holder` has given up its own.
pub open spec fn without(held: Seq<Lock>, holder: u64) -> Seq<Lock>
    decreases held.len(),
{
    if held.len() == 0 {
        Seq::empty()
    } else if held.last().holder == holder {
        without(held.drop_last(), holder)
    } else {
        without(held.drop_last(), holder).push(held.last())
    }
}

/// What is left after a release was held before, and `holder` holds none of it.
pub proof fn lemma_without_is_part(held: Seq<Lock>, holder: u64)
    ensures
        forall|i: int|
            0 <= i < without(held, holder).len() ==> (#[trigger] without(held, holder)[i]).holder != holder
                && held.contains(without(held, holder)[i]),
    decreases held.len(),
{
    if held.len() > 0 {
        let rest = held.drop_last();
        lemma_without_is_part(rest, holder);
        let out = without(held, holder);
        assert forall|i: int| 0 <= i < out.len() implies (#[trigger] out[i]).holder != holder && held.contains(out[i]) by {
            if i < without(rest, holder).len() {
                assert(out[i] == without(rest, holder)[i]);
                let k = choose|k: int| 0 <= k < rest.len() && rest[k] == out[i];
                assert(held[k] == out[i]);
            } else {
                assert(held[held.len() - 1] == out[i]);
            }
        }
    }
}

/// Where `holder` holds nothing, a release changes nothing: to release twice
/// is no error.
pub proof fn lemma_without_absent(held: Seq<Lock>, holder: u64)
    requires
        forall|i: int| 0 <= i < held.len() ==> (#[trigger] held[i]).holder != holder,
    ensures
        without(held, holder) == held,
    decreases held.len(),
{
    if held.len() > 0 {
        lemma_without_absent(held.drop_last(), holder);
        assert(held.drop_last().push(held.last()) =~= held);
    }
}

/// A release is idempotent.
pub proof fn lemma_release_idempotent(held: Seq<Lock>, holder: u64)
    ensures
        without(without(held, holder), holder) == without(held, holder),
{
    lemma_without_is_part(held, holder);
    lemma_without_absent(without(held, holder), holder);
}

/// Writers exclude each other, and readers: of two instructions that hold
/// their locks at the same time, neither names an account that the other
/// marks writable.
pub proof fn lemma_writers_are_alone(
    held: Seq<Lock>,
    first: u64,
    first_accounts: Seq<AccountMeta>,
    second: u64,
    second_accounts: Seq<AccountMeta>,
    i: int,
    j: int,
)
    requires
        compatible(held),
        first != second,
        forall|k: int| 0 <= k < first_accounts.len() ==> held.contains(#[trigger] locks_for(first, first_accounts)[k]),
        forall|k: int|
            0 <= k < second_accounts.len() ==> held.contains(#[trigger] locks_for(second, second_accounts)[k]),
        0 <= i < first_accounts.len(),
        0 <= j < second_accounts.len(),
        first_accounts[i].is_writable,
    ensures
        first_accounts[i].key != second_accounts[j].key,
{
    let a = locks_for(first, first_accounts)[i];
    let b = locks_for(second, second_accounts)[j];
    assert(held.contains(a));
    assert(held.contains(b));
    let x = choose|x: int| 0 <= x < held.len() && held[x] == a;
    let y = choose|y: int| 0 <= y < held.len() && held[y] == b;
    if first_accounts[i].key == second_accounts[j].key {
        assert(held[x].key == held[y].key);
        assert(held[x].exclusive);
    }
}

impl View for LockTable {
    type V = Seq<Lock>;

    closed spec fn view(&self) -> Seq<Lock> {
        self.held@
    }
}

impl LockTable {
    /// The invariant of the table: the locks that are held are compatible.
    pub open spec fn wf(&self) -> bool {
        compatible(self@)
    }

    /// A table without locks.
    pub fn new() -> (t: LockTable)
        ensures
            t.wf(),
            t@ == Seq::<Lock>::empty(),
    {
        LockTable { held: Vec::new() }
    }

    /// Number of locks that are held.
    pub fn len(&self) -> (n: usize)
        ensures
            n == self@.len(),
    {
        self.held.len()
    }

    fn blocked(&self, holder: u64, m: &AccountMeta) -> (b: bool)
        ensures
            b == exists|i: int| 0 <= i < self@.len() && blocks(#[trigger] self@[i], holder, *m),
    {
        let mut i: usize = 0;
        while i < self.held.len()
            invariant
                i <= self.held.len(),
                forall|k: int| 0 <= k < i ==> !blocks(#[trigger] self@[k], holder, *m),
            decreases self.held.len() - i,
        {
            let l = self.held[i];
            if l.holder != holder && (l.exclusive || m.is_writable) && l.key.equals(&m.key) {
                assert(blocks(self@[i as int], holder, *m));
                return true;
            }
            i += 1;
        }
        false
    }

    /// Takes the locks that an instruction needs, all of them or none: an
    /// exclusive lock for each writable reference, a shared lock for each
    /// other. They are granted unless another instruction holds a lock that
    /// stands in the way; then the table is left as it was, and the
    /// instruction has to wait.
    #[verifier::loop_isolation(false)]
    pub fn try_acquire(&mut self, holder: u64, accounts: &Vec<AccountMeta>) -> (granted: bool)
        requires
            old(self).wf(),
        ensures
            final(self).wf(),
            granted == !conflicts(old(self)@, holder, accounts@),
            final(self)@ == if granted {
                old(self)@ + locks_for(holder, accounts@)
            } else {
                old(self)@
            },
    {
        let mut j: usize = 0;
        while j < accounts.len()
            invariant
                j <= accounts.len(),
                self@ == old(self)@,
                forall|i: int, k: int|
                    0 <= i < self@.len() && 0 <= k < j ==> !blocks(#[trigger] self@[i], holder, #[trigger] accounts@[k]),
            decreases accounts.len() - j,
        {
            if self.blocked(holder, &accounts[j]) {
                let ghost i = choose|i: int| 0 <= i < self@.len() && blocks(#[trigger] self@[i], holder, accounts@[j as int]);
                assert(blocks(self@[i], holder, accounts@[j as int]));
                return false;
            }
            j += 1;
        }
        let ghost before = self@;
        let ghost wanted = locks_for(holder, accounts@);
        j = 0;
        while j < accounts.len()
            invariant
                j <= accounts.len(),
                self@ == before + wanted.take(j as int),
            decreases accounts.len() - j,
        {
            let m = accounts[j];
            self.held.push(Lock { holder, key: m.key, exclusive: m.is_writable });
            assert(self@ =~= before + wanted.take(j + 1));
            j += 1;
        }
        assert(wanted.take(j as int) =~= wanted);
        assert(compatible(self@)) by {
            let now = self@;
            assert forall|a: int, b: int|
                0 <= a < now.len() && 0 <= b < now.len() && (#[trigger] now[a]).key == (#[trigger] now[b]).key
                    && now[a].holder != now[b].holder implies !now[a].exclusive && !now[b].exclusive by {
                if a < before.len() && b < before.len() {
                    assert(before[a].key == before[b].key);
                } else if a < before.len() {
                    assert(!blocks(before[a], holder, accounts@[b - before.len()]));
                } else if b < before.len() {
                    assert(!blocks(before[b], holder, accounts@[a - before.len()]));
                }
            }
        }
        true
    }

    /// Gives up every lock of `holder`. Where it holds none, the table is
    /// left as it was.
    pub fn release(&mut self, holder: u64)
        requires
            old(self).wf(),
        ensures
            final(self).wf(),
            final(self)@ == without(old(self)@, holder),
    {
        let mut kept: Vec<Lock> = Vec::new();
        let ghost before = self@;
        let n: usize = self.held.len();
        let mut i: usize = 0;
        assert(before.take(0) =~= Seq::<Lock>::empty());
        while i < n
            invariant
                i <= n == self.held.len(),
                self@ == before,
                kept@ == without(before.take(i as int), holder),
            decreases n - i,
        {
            let l = self.held[i];
            assert(before.take(i + 1).drop_last() =~= before.take(i as int));
            if l.holder != holder {
                kept.push(l);
            }
            i += 1;
        }
        assert(before.take(n as int) =~= before);
        self.held = kept;
        proof {
            lemma_without_is_part(before, holder);
            let now = self@;
            assert forall|a: int, b: int|
                0 <= a < now.len() && 0 <= b < now.len() && (#[trigger] now[a]).key == (#[trigger] now[b]).key
                    && now[a].holder != now[b].holder implies !now[a].exclusive && !now[b].exclusive by {
                let x = choose|x: int| 0 <= x < before.len() && before[x] == now[a];
                let y = choose|y: int| 0 <= y < before.len() && before[y] == now[b];
                assert(before[x].key == before[y].key);
            }
        }
    }

    /// Whether `holder` holds a lock on the account, and of which kind.
    pub fn holds(&self, holder: u64, key: &Pubkey, exclusive: bool) -> (held: bool)
        ensures
            held == self@.contains(Lock { holder: holder, key: *key, exclusive: exclusive }),
    {
        let mut i: usize = 0;
        while i < self.held.len()
            invariant
                i <= self.held.len(),
                forall|k: int| 0 <= k < i ==> self@[k] != (Lock { holder: holder, key: *key, exclusive: exclusive }),
            decreases self.held.len() - i,
        {
            let l = self.held[i];
            if l.holder == holder && l.exclusive == exclusive && l.key.equals(key) {
                assert(self@[i as int] == (Lock { holder: holder, key: *key, exclusive: exclusive }));
                return true;
            }
            i += 1;
        }
        false
    }
}

} // verus!

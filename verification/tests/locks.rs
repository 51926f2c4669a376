use cpi_engine::instruction::AccountMeta;
use cpi_engine::key::Pubkey;
use cpi_engine::locks::LockTable;

fn key(b: u8) -> Pubkey {
    Pubkey::new([b; 32])
}

fn meta(b: u8, is_writable: bool) -> AccountMeta {
    AccountMeta { key: key(b), is_writable, is_signer: false }
}

#[test]
fn readers_share_an_account() {
    let mut t = LockTable::new();
    assert_eq!(t.len(), 0);
    assert!(t.try_acquire(1, &vec![meta(10, false), meta(11, false)]));
    assert!(t.try_acquire(2, &vec![meta(10, false)]));
    assert!(t.try_acquire(3, &vec![meta(11, false), meta(10, false)]));
    assert_eq!(t.len(), 5);
    assert!(t.holds(1, &key(10), false));
    assert!(t.holds(2, &key(10), false));
    assert!(!t.holds(2, &key(11), false));
    assert!(!t.holds(1, &key(10), true));
}

#[test]
fn a_writer_excludes_writers_and_readers() {
    let mut t = LockTable::new();
    assert!(t.try_acquire(1, &vec![meta(10, true), meta(11, false)]));
    assert!(t.holds(1, &key(10), true));
    assert!(t.holds(1, &key(11), false));
    assert!(!t.try_acquire(2, &vec![meta(10, true)]));
    assert!(!t.try_acquire(2, &vec![meta(10, false)]));
    assert!(!t.try_acquire(2, &vec![meta(11, true)]));
    assert!(t.try_acquire(2, &vec![meta(11, false), meta(12, true)]));
    assert_eq!(t.len(), 4);
}

#[test]
fn locks_are_granted_all_or_none() {
    let mut t = LockTable::new();
    assert!(t.try_acquire(1, &vec![meta(10, true)]));
    let before = format!("{:?}", t);
    assert!(!t.try_acquire(2, &vec![meta(12, true), meta(13, false), meta(10, false)]));
    assert_eq!(format!("{:?}", t), before);
    assert!(!t.holds(2, &key(12), true));
    assert!(t.try_acquire(3, &vec![meta(12, true)]));
}

#[test]
fn an_instruction_does_not_block_itself() {
    let mut t = LockTable::new();
    assert!(t.try_acquire(1, &vec![meta(10, true), meta(10, false)]));
    assert!(t.try_acquire(1, &vec![meta(10, true)]));
    assert_eq!(t.len(), 3);
    assert!(t.try_acquire(4, &vec![]));
    assert_eq!(t.len(), 3);
}

#[test]
fn a_release_lets_the_next_one_in() {
    let mut t = LockTable::new();
    assert!(t.try_acquire(1, &vec![meta(10, true), meta(11, false)]));
    assert!(t.try_acquire(2, &vec![meta(11, false)]));
    assert!(!t.try_acquire(3, &vec![meta(10, true), meta(11, true)]));
    t.release(1);
    assert_eq!(t.len(), 1);
    assert!(!t.holds(1, &key(10), true));
    assert!(t.holds(2, &key(11), false));
    assert!(!t.try_acquire(3, &vec![meta(10, true), meta(11, true)]));
    t.release(2);
    assert_eq!(t.len(), 0);
    assert!(t.try_acquire(3, &vec![meta(10, true), meta(11, true)]));
}

#[test]
fn releasing_twice_is_a_no_op() {
    let mut t = LockTable::new();
    assert!(t.try_acquire(1, &vec![meta(10, true)]));
    assert!(t.try_acquire(2, &vec![meta(11, true)]));
    t.release(1);
    let once = format!("{:?}", t);
    t.release(1);
    assert_eq!(format!("{:?}", t), once);
    t.release(99);
    assert_eq!(format!("{:?}", t), once);
}

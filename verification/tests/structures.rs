use chessbot5::ai::structures::killerray::Killerray;
use chessbot5::ai::structures::memomap as old_memo;
use chessbot5::ai::structures::updatemap::{TransFlag as UpdateFlag, UpdateMap};
use chessbot5::backend::ai::structures::memomap::{MemoMap, TransFlag, Transposition};
use chessbot5::backend::board_representation::repetition_counter::RepetitionCounter;
use chessbot5::backend::keycount::Key_Count;
use chessbot5::backend::movement::Move;

#[test]
fn can_put_and_get() {
    let mut kill = Killerray::new();
    assert_eq!(&None, kill.get(5));
    let m = Move::new(0, 0, 0, 0, None, 0);
    kill.put(m.clone(), 5);
    assert_eq!(&Some(m), kill.get(5));
}

#[test]
fn can_go_out_of_bounds() {
    let mut kill = Killerray::new();
    let m = Move::new(0, 0, 0, 0, None, 0);
    kill.put(m.clone(), 99999999);
    assert_eq!(&Some(m), kill.get(99999999));
}

#[test]
fn killer_slots_wrap_around() {
    let mut kill = Killerray::new();
    let m = Move::new(1, 2, 3, 4, None, 0);
    kill.put(m, 3);
    assert_eq!(&Some(m), kill.get(23));
    assert_eq!(&None, kill.get(4));
}

#[test]
fn memomap_can_insert_and_retrieve() {
    let mut memo = old_memo::MemoMap::new();
    memo.insert(13, 0, old_memo::TransFlag::EXACT, 0, None);
    assert_eq!(
        Some(&old_memo::Transposition { value: 0, flag: old_memo::TransFlag::EXACT, depth: 0, best: None, age: 2 }),
        memo.get(&13)
    );
}

#[test]
fn memomap_cleaning_twice_removes_entry() {
    let mut memo = old_memo::MemoMap::new();
    memo.insert(13, 0, old_memo::TransFlag::EXACT, 0, None);
    assert_eq!(
        Some(&old_memo::Transposition { value: 0, flag: old_memo::TransFlag::EXACT, depth: 0, best: None, age: 2 }),
        memo.get(&13)
    );
    assert_eq!(0, memo.clean());
    assert_eq!(
        Some(&old_memo::Transposition { value: 0, flag: old_memo::TransFlag::EXACT, depth: 0, best: None, age: 2 }),
        memo.get(&13)
    );
    assert_eq!(1, memo.clean());
    assert_eq!(None, memo.get(&13));
}

#[test]
fn can_insert_and_retrieve() {
    let mut memo = MemoMap::new();
    memo.insert(13, 0, TransFlag::EXACT, 0, None);
    assert_eq!(Some(&Transposition { value: 0, flag: TransFlag::EXACT, depth: 0, best: None, age: false }), memo.get(&13));
}

#[test]
fn cleaning_twice_removes_entry() {
    let mut memo = MemoMap::new();
    memo.insert(13, 0, TransFlag::EXACT, 0, None);
    assert_eq!(Some(&Transposition { value: 0, flag: TransFlag::EXACT, depth: 0, best: None, age: false }), memo.get(&13));
    memo.clean();
    memo.clean();
    assert_eq!(None, memo.get(&13));
}

#[test]
fn getting_resets_timer() {
    let mut memo = MemoMap::new();
    memo.insert(13, 0, TransFlag::EXACT, 0, None);
    for _ in 0..10 {
        memo.clean();
        assert!(memo.get(&13).is_some());
    }
}

#[test]
fn memomap_keeps_deeper_entries() {
    let mut memo = MemoMap::new();
    memo.insert(7, 10, TransFlag::LOWER_BOUND, 4, None);
    memo.insert(7, 20, TransFlag::EXACT, 3, None);
    assert_eq!(memo.get(&7).unwrap().value, 10);
    memo.insert(7, 30, TransFlag::EXACT, 5, None);
    assert_eq!(memo.get(&7).unwrap().value, 30);
    assert_eq!(memo.len(), 1);
}

#[test]
fn can_extract() {
    let mut memo = UpdateMap::new();
    let t1 = memo.transpose(13, 50, 3, UpdateFlag::EXACT, None);
    let t2 = memo.transpose(13, 50, 3, UpdateFlag::EXACT, None);
    memo.insert(t1);
    assert_eq!(Some(&Box::new(t2)), memo.get(13));
}

#[test]
fn updatemap_replaces_entry_of_same_hash() {
    let mut memo = UpdateMap::new();
    let t1 = memo.transpose(40, 1, 1, UpdateFlag::EXACT, None);
    let t2 = memo.transpose(40, 2, 2, UpdateFlag::UPPER_BOUND, None);
    memo.insert(t1);
    memo.insert(t2);
    assert_eq!(memo.get(40).unwrap().value, 2);
    assert_eq!(memo.get(44), None);
}

#[test]
fn repetition_counter_can_inc() {
    let mut count = RepetitionCounter::new();
    count.inc(42);
    assert_eq!(1, count.count(42));
}

#[test]
fn repetition_counter_can_dec() {
    let mut count = RepetitionCounter::new();
    count.inc(42);
    count.inc(42);
    count.inc(42);
    count.dec(42);
    assert_eq!(2, count.count(42));
}

#[should_panic]
#[test]
fn repetition_counter_cannot_get_unknown_key() {
    RepetitionCounter::new().count(42);
}

#[test]
fn keycount_can_inc() {
    let mut count = Key_Count::new();
    count.inc(42);
    assert_eq!(1, count.count(42));
}

#[test]
fn keycount_can_dec() {
    let mut count = Key_Count::new();
    count.inc(42);
    count.inc(42);
    count.inc(42);
    count.dec(42);
    assert_eq!(2, count.count(42));
}

#[should_panic]
#[test]
fn keycount_cannot_get_unknown_key() {
    Key_Count::new().count(42);
}

#[test]
fn a_clean_keeps_exactly_the_entries_used_since_the_last() {
    let mut memo = MemoMap::new();
    memo.insert(1, 5, TransFlag::EXACT, 2, None);
    memo.insert(2, 6, TransFlag::EXACT, 2, None);
    memo.insert(3, 7, TransFlag::EXACT, 2, None);
    assert_eq!(0, memo.clean());
    // Read 1, rewrite 2 deeper, try to rewrite 3 shallower (refused), leave them otherwise.
    assert!(memo.get(&1).is_some());
    memo.insert(2, 8, TransFlag::LOWER_BOUND, 3, None);
    memo.insert(3, 9, TransFlag::LOWER_BOUND, 1, None);
    assert_eq!(1, memo.clean());
    assert_eq!(memo.len(), 2);
    assert_eq!(memo.get(&2).unwrap().value, 8);
    assert_eq!(memo.get(&1).unwrap().value, 5);
    assert_eq!(None, memo.get(&3));
}

use mmsolv::combinations::SliceCombo;

#[test]
fn two_letters_in_two_slots() {
    let mut combos = SliceCombo::new(vec![b'a', b'b'], 2);
    assert_eq!(combos.next(), Some(b"aa".to_vec()));
    assert_eq!(combos.next(), Some(b"ab".to_vec()));
    assert_eq!(combos.next(), Some(b"ba".to_vec()));
    assert_eq!(combos.next(), Some(b"bb".to_vec()));
    assert_eq!(combos.next(), None);
}

#[test]
fn an_empty_alphabet_yields_nothing() {
    let mut combos = SliceCombo::new(Vec::<u8>::new(), 3);
    assert_eq!(combos.next(), None);
    assert_eq!(combos.next(), None);
    let mut combos = SliceCombo::new(Vec::<u8>::new(), 0);
    assert_eq!(combos.next(), None);
}

#[test]
fn no_slots_yield_the_empty_sequence_once() {
    let mut combos = SliceCombo::new(vec![1u8, 2, 3], 0);
    assert_eq!(combos.next(), Some(Vec::new()));
    assert_eq!(combos.next(), None);
    assert_eq!(combos.next(), None);
}

#[test]
fn one_slot_yields_the_alphabet() {
    let mut combos = SliceCombo::new(vec![7u32, 5, 9], 1);
    assert_eq!(combos.next(), Some(vec![7]));
    assert_eq!(combos.next(), Some(vec![5]));
    assert_eq!(combos.next(), Some(vec![9]));
    assert_eq!(combos.next(), None);
}

#[test]
fn one_letter_yields_one_sequence() {
    let mut combos = SliceCombo::new(vec![b'x'], 4);
    assert_eq!(combos.next(), Some(b"xxxx".to_vec()));
    assert_eq!(combos.next(), None);
}

#[test]
fn the_end_is_the_end() {
    let mut combos = SliceCombo::new(vec![b'a', b'b'], 1);
    assert_eq!(combos.next(), Some(b"a".to_vec()));
    assert_eq!(combos.next(), Some(b"b".to_vec()));
    for _ in 0..5 {
        assert_eq!(combos.next(), None);
    }
}

#[test]
fn the_last_slot_changes_fastest() {
    let alphabet = vec![0u8, 1, 2];
    let mut combos = SliceCombo::new(alphabet, 3);
    let mut rank: u32 = 0;
    while let Some(sequence) = combos.next() {
        let number = sequence[0] as u32 * 9 + sequence[1] as u32 * 3 + sequence[2] as u32;
        assert_eq!(number, rank);
        rank += 1;
    }
    assert_eq!(rank, 27);
}

#[test]
fn a_carry_runs_over_several_slots() {
    let mut combos = SliceCombo::new(vec![b'a', b'b'], 3);
    let mut all = Vec::new();
    while let Some(sequence) = combos.next() {
        all.push(sequence);
    }
    let expected: Vec<Vec<u8>> = vec![
        b"aaa".to_vec(),
        b"aab".to_vec(),
        b"aba".to_vec(),
        b"abb".to_vec(),
        b"baa".to_vec(),
        b"bab".to_vec(),
        b"bba".to_vec(),
        b"bbb".to_vec(),
    ];
    assert_eq!(all, expected);
}

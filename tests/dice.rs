use bip39_dice::dice::{
    bias_cutoff, dice_to_index, index_to_dice, roll_to_word_index, DiceError, DICE_MAX,
};

#[test]
fn boundary_rolls() {
    assert_eq!(dice_to_index("11111"), Ok(0));
    assert_eq!(dice_to_index("66666"), Ok(7775));
    assert_eq!(index_to_dice(0), "11111");
    assert_eq!(index_to_dice(7775), "66666");
}

#[test]
fn exact_values() {
    assert_eq!(dice_to_index("12345"), Ok(310));
    assert_eq!(index_to_dice(310), "12345");
    assert_eq!(dice_to_index("21111"), Ok(1296));
    assert_eq!(index_to_dice(5), "11116");
    assert_eq!(index_to_dice(6), "11121");
}

#[test]
fn index_round_trip() {
    for i in 0..DICE_MAX {
        let roll = index_to_dice(i);
        assert_eq!(roll.chars().count(), 5);
        assert_eq!(dice_to_index(&roll), Ok(i));
    }
}

#[test]
fn roll_round_trip() {
    let faces = ['1', '2', '3', '4', '5', '6'];
    for a in faces {
        for b in faces {
            for c in faces {
                for d in faces {
                    for e in faces {
                        let roll: String = [a, b, c, d, e].iter().collect();
                        let i = dice_to_index(&roll).unwrap();
                        assert!(i < DICE_MAX);
                        assert_eq!(index_to_dice(i), roll);
                    }
                }
            }
        }
    }
}

#[test]
fn invalid_characters() {
    assert_eq!(dice_to_index("12a45"), Err(DiceError::InvalidDiceCharacter('a')));
    assert_eq!(dice_to_index("70000"), Err(DiceError::InvalidDiceCharacter('7')));
    assert_eq!(dice_to_index("1111x"), Err(DiceError::InvalidDiceCharacter('x')));
    assert_eq!(dice_to_index("01234"), Err(DiceError::InvalidDiceCharacter('0')));
}

#[test]
fn bias_cutoff_for_english_list() {
    let cutoff = bias_cutoff(DICE_MAX, 2048);
    assert_eq!(cutoff, 6144);
    assert_eq!(roll_to_word_index(0, cutoff, 2048), Some(0));
    assert_eq!(roll_to_word_index(2048, cutoff, 2048), Some(0));
    assert_eq!(roll_to_word_index(6143, cutoff, 2048), Some(2047));
    for roll in 6144..DICE_MAX {
        assert_eq!(roll_to_word_index(roll, cutoff, 2048), None);
        assert_eq!(dice_to_index(&index_to_dice(roll)), Ok(roll));
    }
    assert_eq!(bias_cutoff(7775, 2048), 6144);
    assert_eq!(bias_cutoff(100, 7), 98);
}

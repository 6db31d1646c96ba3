use bip39_dice::checkwords::{checkword_index, pack_entropy, solve_checkwords, SolveError};
use bip39_dice::mnemonic::MnemonicLength;
use bip39_dice::wordlist::lookup_word;

fn validates(words: &[&str], last: &str) -> bool {
    let mut phrase = words.join(" ");
    phrase.push(' ');
    phrase.push_str(last);
    bip39::Mnemonic::validate(&phrase, bip39::Language::English).is_ok()
}

#[test]
fn twelve_words_give_one_candidate_per_nonce() {
    let words = ["abandon"; 11];
    let found = solve_checkwords(&words, MnemonicLength::Words12).unwrap();
    assert_eq!(found.len(), 128);
    assert!(found.contains(&"about"));
    let indices: Vec<u16> = found.iter().map(|w| lookup_word(w).unwrap()).collect();
    for pair in indices.windows(2) {
        assert!(pair[0] < pair[1]);
    }
    for (nonce, index) in indices.iter().enumerate() {
        assert_eq!((*index as usize) >> 4, nonce);
    }
}

#[test]
fn candidates_pass_checksum_and_are_all() {
    let words = [
        "legal", "winner", "thank", "year", "wave", "sausage", "worth", "useful", "legal",
        "winner", "thank",
    ];
    let found = solve_checkwords(&words, MnemonicLength::Words12).unwrap();
    assert!(found.contains(&"yellow"));
    for w in &found {
        assert!(validates(&words, w));
    }
    let list = bip39::Language::English.wordlist();
    let mut valid = Vec::new();
    for i in 0..2048u16 {
        let w = list.get_word(i.into());
        if validates(&words, w) {
            valid.push(w);
        }
    }
    assert_eq!(valid, found);
}

#[test]
fn longer_mnemonics() {
    let words = ["abandon"; 23];
    let found = solve_checkwords(&words, MnemonicLength::Words24).unwrap();
    assert_eq!(found.len(), 8);
    assert!(found.contains(&"art"));
    for w in &found {
        assert!(validates(&words, w));
    }
    let words = ["zoo"; 14];
    let found = solve_checkwords(&words, MnemonicLength::Words15).unwrap();
    assert_eq!(found.len(), 64);
    for w in &found {
        assert!(validates(&words, w));
    }
    let words = ["zoo"; 17];
    assert_eq!(solve_checkwords(&words, MnemonicLength::Words18).unwrap().len(), 32);
    let words = ["zoo"; 20];
    assert_eq!(solve_checkwords(&words, MnemonicLength::Words21).unwrap().len(), 16);
}

#[test]
fn invalid_word_is_reported() {
    let mut words = ["abandon"; 11];
    words[3] = "notaword";
    words[7] = "alsonot";
    assert_eq!(
        solve_checkwords(&words, MnemonicLength::Words12),
        Err(SolveError::InvalidWord(3))
    );
}

#[test]
fn repeated_runs_agree() {
    let words = ["zoo"; 11];
    let first = solve_checkwords(&words, MnemonicLength::Words12).unwrap();
    let second = solve_checkwords(&words, MnemonicLength::Words12).unwrap();
    assert_eq!(first, second);
    assert!(first.contains(&"wrong"));
}

#[test]
fn checkword_index_values() {
    assert_eq!(checkword_index(0, 4, 0xab), 10);
    assert_eq!(checkword_index(5, 4, 0xf0), 95);
    assert_eq!(checkword_index(127, 4, 0xff), 2047);
    assert_eq!(checkword_index(2, 8, 0x37), 567);
    assert_eq!(checkword_index(1, 6, 0x0c), 67);
}

#[test]
fn entropy_packing() {
    let zeros = vec![0u16; 11];
    assert_eq!(pack_entropy(&zeros, 0, 7), vec![0u8; 16]);
    let ones = vec![2047u16; 11];
    assert_eq!(pack_entropy(&ones, 127, 7), vec![0xffu8; 16]);
    assert_eq!(pack_entropy(&vec![1u16], 21, 5), vec![0x00, 0x35]);
    assert_eq!(pack_entropy(&vec![1024u16], 0, 5), vec![0x80, 0x00]);
}

#[test]
fn word_lookup() {
    assert_eq!(lookup_word("abandon"), Some(0));
    assert_eq!(lookup_word("zoo"), Some(2047));
    assert_eq!(lookup_word("about"), Some(3));
    assert_eq!(lookup_word("notaword"), None);
    assert_eq!(lookup_word(""), None);
}

#[test]
fn mnemonic_lengths() {
    assert_eq!(MnemonicLength::for_word_count(12), Some(MnemonicLength::Words12));
    assert_eq!(MnemonicLength::for_word_count(24), Some(MnemonicLength::Words24));
    assert_eq!(MnemonicLength::for_word_count(13), None);
    let t = MnemonicLength::Words18;
    assert_eq!(t.word_count(), 18);
    assert_eq!(t.checksum_bits(), 6);
    assert_eq!(t.entropy_bits(), 192);
}

use bip39_dice::phrase::join;

#[test]
fn join_one_word() {
    assert_eq!(join(&["abandon"], " "), "abandon");
}

#[test]
fn join_several_words() {
    assert_eq!(join(&["zoo", "zoo", "wrong"], " "), "zoo zoo wrong");
    assert_eq!(join(&["a", "", "b"], ", "), "a, , b");
}

//! Conversion between five-die rolls, written as strings over `'1'..='6'`,
//! and integers in `[0, 6^5)`.

use vstd::arithmetic::div_mod::lemma_fundamental_div_mod_converse;
use vstd::prelude::*;

verus! {

/// Number of dice in one roll.
pub const DICE_PER_ROLL: usize = 5;

/// Number of distinct rolls of five dice (`6^5`).
pub const DICE_MAX: u16 = 7776;

/// Why a roll could not be decoded.
#[derive(Debug, Clone, Copy, PartialEq, Eq)]
pub enum DiceError {
    /// The first character of the roll that is not a die face `'1'..='6'`.
    InvalidDiceCharacter(char),
}

/// `6^n`.
pub open spec fn pow6(n: nat) -> nat
    decreases n,
{
    if n == 0 {
        1
    } else {
        6 * pow6((n - 1) as nat)
    }
}

/// A die face: one of `'1'..='6'`.
pub open spec fn is_die_face(c: char) -> bool {
    '1' <= c && c <= '6'
}

/// Every character of `s` is a die face.
pub open spec fn is_roll(s: Seq<char>) -> bool {
    forall|i: int| 0 <= i < s.len() ==> is_die_face(#[trigger] s[i])
}

/// The digit a face stands for: `'1'` is 0, `'6'` is 5.
pub open spec fn face_digit(c: char) -> nat {
    (c as int - '1' as int) as nat
}

/// The face that stands for digit `d < 6`.
pub open spec fn digit_face(d: nat) -> char {
    if d == 0 {
        '1'
    } else if d == 1 {
        '2'
    } else if d == 2 {
        '3'
    } else if d == 3 {
        '4'
    } else if d == 4 {
        '5'
    } else {
        '6'
    }
}

/// The value of a roll read as a base-6 numeral, most significant die first.
pub open spec fn roll_value(s: Seq<char>) -> nat
    decreases s.len(),
{
    if s.len() == 0 {
        0
    } else {
        roll_value(s.drop_last()) * 6 + face_digit(s.last())
    }
}

/// The `k` dice that write `n` in base 6, most significant first, padded
/// with `'1'` on the left.
pub open spec fn roll_of(n: nat, k: nat) -> Seq<char>
    decreases k,
{
    if k == 0 {
        Seq::empty()
    } else {
        seq![digit_face((n / pow6((k - 1) as nat)) % 6)] + roll_of(n % pow6((k - 1) as nat), (k - 1) as nat)
    }
}

proof fn lemma_pow6_positive(n: nat)
    ensures
        pow6(n) >= 1,
    decreases n,
{
    if n > 0 {
        lemma_pow6_positive((n - 1) as nat);
    }
}

proof fn lemma_roll_value_concat(a: Seq<char>, b: Seq<char>)
    ensures
        roll_value(a + b) == roll_value(a) * pow6(b.len()) + roll_value(b),
    decreases b.len(),
{
    if b.len() == 0 {
        assert(a + b =~= a);
        assert(roll_value(b) == 0);
        assert(pow6(0) == 1);
    } else {
        lemma_roll_value_concat(a, b.drop_last());
        assert((a + b).drop_last() =~= a + b.drop_last());
        assert((a + b).last() == b.last());
        let p = pow6((b.len() - 1) as nat);
        let x = roll_value(a);
        let y = roll_value(b.drop_last());
        assert((x * p + y) * 6 == x * (6 * p) + y * 6) by (nonlinear_arith);
        assert(roll_value(a + b) == roll_value((a + b).drop_last()) * 6 + face_digit((a + b).last()));
        assert(roll_value(b) == y * 6 + face_digit(b.last()));
        assert(pow6(b.len()) == 6 * p);
    }
}

proof fn lemma_face_digit(d: nat, c: char)
    ensures
        d < 6 ==> face_digit(digit_face(d)) == d && is_die_face(digit_face(d)),
        is_die_face(c) ==> digit_face(face_digit(c)) == c && face_digit(c) < 6,
{
}

proof fn lemma_roll_value_bound(s: Seq<char>)
    requires
        is_roll(s),
    ensures
        roll_value(s) < pow6(s.len()),
    decreases s.len(),
{
    if s.len() > 0 {
        let t = s.drop_last();
        assert(is_die_face(s[s.len() - 1]));
        lemma_roll_value_bound(t);
        assert(roll_value(t) * 6 + 6 <= pow6(t.len()) * 6) by (nonlinear_arith)
            requires
                roll_value(t) + 1 <= pow6(t.len()),
        ;
    }
}

proof fn lemma_pow6_small()
    ensures
        pow6(1) == 6,
        pow6(2) == 36,
        pow6(3) == 216,
        pow6(4) == 1296,
        pow6(5) == 7776,
{
    assert(pow6(0) == 1);
    assert(pow6(1) == 6);
    assert(pow6(2) == 36);
    assert(pow6(3) == 216);
    assert(pow6(4) == 1296);
    assert(pow6(5) == 7776);
}

/// Reading back the roll written for `n` gives `n`.
pub proof fn lemma_value_of_roll(n: nat, k: nat)
    requires
        n < pow6(k),
    ensures
        roll_value(roll_of(n, k)) == n,
        roll_of(n, k).len() == k,
        is_roll(roll_of(n, k)),
    decreases k,
{
    if k > 0 {
        let p = pow6((k - 1) as nat);
        lemma_pow6_positive((k - 1) as nat);
        let q = n / p;
        let r = n % p;
        assert(n == q * p + r) by (nonlinear_arith)
            requires
                p > 0,
                q == n / p,
                r == n % p,
        ;
        assert(q < 6) by (nonlinear_arith)
            requires
                n == q * p + r,
                n < 6 * p,
                r >= 0,
                p > 0,
        ;
        lemma_value_of_roll(r, (k - 1) as nat);
        let head = seq![digit_face(q % 6)];
        lemma_roll_value_concat(head, roll_of(r, (k - 1) as nat));
        assert(head.drop_last() =~= Seq::<char>::empty());
        assert(roll_value(head.drop_last()) == 0);
        lemma_face_digit(q, 'a');
        assert(q % 6 == q);
        assert(roll_value(head) == q);
        let s = roll_of(n, k);
        assert(s =~= head + roll_of(r, (k - 1) as nat));
        assert forall|i: int| 0 <= i < s.len() implies is_die_face(#[trigger] s[i]) by {
            if i > 0 {
                assert(s[i] == roll_of(r, (k - 1) as nat)[i - 1]);
            }
        }
    }
}

/// Writing out the value of a roll gives back the roll.
pub proof fn lemma_roll_of_value(s: Seq<char>)
    requires
        is_roll(s),
    ensures
        roll_of(roll_value(s), s.len()) == s,
    decreases s.len(),
{
    if s.len() > 0 {
        let head = s.subrange(0, 1);
        let tail = s.subrange(1, s.len() as int);
        assert(s =~= head + tail);
        assert(is_die_face(s[0]));
        assert forall|i: int| 0 <= i < tail.len() implies is_die_face(#[trigger] tail[i]) by {
            assert(tail[i] == s[i + 1]);
        }
        lemma_roll_value_concat(head, tail);
        assert(head.drop_last() =~= Seq::<char>::empty());
        assert(roll_value(head.drop_last()) == 0);
        lemma_roll_value_bound(tail);
        lemma_roll_of_value(tail);
        let p = pow6(tail.len());
        let d = face_digit(s[0]);
        lemma_face_digit(0, s[0]);
        assert(head.last() == s[0]);
        assert(roll_value(head) == d);
        assert(roll_value(s) == d * p + roll_value(tail));
        lemma_fundamental_div_mod_converse(roll_value(s) as int, p as int, d as int, roll_value(tail) as int);
        assert(d % 6 == d);
        assert(roll_of(roll_value(s), s.len()) =~= s);
    }
}

/// The face `'1'..='6'` for digit `d < 6`, as a one-character string.
fn face_str(d: u16) -> (r: &'static str)
    requires
        d < 6,
    ensures
        r@ == seq![digit_face(d as nat)],
{
    proof {
        reveal_strlit("1");
        reveal_strlit("2");
        reveal_strlit("3");
        reveal_strlit("4");
        reveal_strlit("5");
        reveal_strlit("6");
    }
    if d == 0 {
        "1"
    } else if d == 1 {
        "2"
    } else if d == 2 {
        "3"
    } else if d == 3 {
        "4"
    } else if d == 4 {
        "5"
    } else {
        "6"
    }
}

/// The five-die roll for `index`, most significant die first, padded with
/// `'1'` on the left.
pub fn index_to_dice(index: u16) -> (r: String)
    requires
        index < DICE_MAX,
    ensures
        r@ == roll_of(index as nat, 5),
        r@.len() == 5,
        is_roll(r@),
{
    proof {
        lemma_pow6_small();
        lemma_value_of_roll(index as nat, 5);
    }
    let mut out = String::new();
    let mut rest: u16 = index;
    let mut place: u16 = 1296;
    let mut k: usize = 5;
    while k > 0
        invariant
            k <= 5,
            place as nat == pow6((k - 1) as nat) || k == 0,
            k > 0 ==> rest < 6 * place,
            out@ + roll_of(rest as nat, k as nat) == roll_of(index as nat, 5),
        decreases k,
    {
        let d = rest / place;
        assert(d < 6) by (nonlinear_arith)
            requires
                rest < 6 * place,
                d == rest / place,
                place > 0,
        ;
        proof {
            lemma_pow6_positive((k - 1) as nat);
            assert(out@ + seq![digit_face(d as nat)] + roll_of((rest % place) as nat, (k - 1) as nat)
                =~= out@ + roll_of(rest as nat, k as nat));
        }
        out.append(face_str(d));
        rest = rest % place;
        if k > 1 {
            assert(pow6((k - 1) as nat) == 6 * pow6((k - 2) as nat));
        }
        place = place / 6;
        k = k - 1;
    }
    assert(out@ =~= roll_of(index as nat, 5));
    out
}

/// The index that a five-die roll stands for: the roll read as a base-6
/// numeral with `'1'` as 0 and `'6'` as 5.
///
/// Fails on the first character that is not a die face.
pub fn dice_to_index(dice: &str) -> (r: Result<u16, DiceError>)
    requires
        dice@.len() == DICE_PER_ROLL,
    ensures
        r is Ok <==> is_roll(dice@),
        r matches Ok(v) ==> v as nat == roll_value(dice@) && v < DICE_MAX,
        r matches Err(DiceError::InvalidDiceCharacter(c)) ==> exists|i: int|
            0 <= i < dice@.len() && dice@[i] == c && !is_die_face(c) && is_roll(
                #[trigger] dice@.subrange(0, i),
            ),
{
    let n = dice.unicode_len();
    let mut index: u16 = 0;
    let mut i: usize = 0;
    while i < n
        invariant
            n == dice@.len() == 5,
            i <= n,
            is_roll(dice@.subrange(0, i as int)),
            index as nat == roll_value(dice@.subrange(0, i as int)),
            index < pow6(i as nat),
        decreases n - i,
    {
        let c = dice.get_char(i);
        if c < '1' || c > '6' {
            assert(dice@[i as int] == c);
            return Err(DiceError::InvalidDiceCharacter(c));
        }
        let ghost pre = dice@.subrange(0, i as int);
        let ghost next = dice@.subrange(0, i + 1);
        assert(next.drop_last() =~= pre);
        assert forall|j: int| 0 <= j < next.len() implies is_die_face(#[trigger] next[j]) by {
            if j < i {
                assert(next[j] == pre[j]);
            }
        }
        proof {
            lemma_pow6_small();
        }
        index = index * 6 + (c as u16 - '1' as u16);
        i = i + 1;
    }
    assert(dice@.subrange(0, 5) =~= dice@);
    proof {
        lemma_pow6_small();
    }
    Ok(index)
}

/// The number of rolls that can pick a word without bias: the largest
/// multiple of `word_count` that is at most `dice_max`.
pub fn bias_cutoff(dice_max: u16, word_count: u16) -> (r: u16)
    requires
        word_count > 0,
    ensures
        r == dice_max / word_count * word_count,
        r <= dice_max,
        dice_max - r < word_count,
{
    let q = dice_max / word_count;
    assert(q * word_count <= dice_max && dice_max - q * word_count < word_count) by (nonlinear_arith)
        requires
            word_count > 0,
            q == dice_max / word_count,
    ;
    q * word_count
}

/// The word index that `roll` selects, or `None` where the roll lies at or
/// above the cutoff and must be rolled again.
pub fn roll_to_word_index(roll: u16, cutoff: u16, word_count: u16) -> (r: Option<u16>)
    requires
        word_count > 0,
    ensures
        r == (if roll < cutoff {
            Some((roll % word_count) as u16)
        } else {
            None::<u16>
        }),
{
    if roll < cutoff {
        Some(roll % word_count)
    } else {
        None
    }
}

} // verus!

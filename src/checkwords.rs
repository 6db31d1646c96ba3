//! Finding every last word that completes a BIP39 mnemonic.
//!
//! The last word of a mnemonic carries `nonce_bits` bits of entropy followed
//! by the `checksum_bits` bits of checksum. For each choice of the free bits
//! the checksum is fixed, so the candidates are exactly one word per nonce.

use crate::bits::{
    bits_value, field_bits, into_bytes, lemma_field_bits_len, lemma_field_bits_split,
    lemma_field_bits_value, lemma_word_fields_len, lemma_word_fields_push, new_writer, pack_bytes,
    word_fields, write_field, written_bits,
};
use crate::mnemonic::{MnemonicLength, BITS_PER_WORD};
use crate::wordlist::{english_word, in_wordlist, lookup_word, word_at, word_index};
use vstd::arithmetic::div_mod::{lemma_fundamental_div_mod, lemma_fundamental_div_mod_converse};
use vstd::arithmetic::power2::{lemma2_to64, pow2};
use vstd::bits::{lemma_u16_shl_is_mul, lemma_u16_shr_is_div};
use vstd::prelude::*;

verus! {

/// Why no candidates could be computed.
#[derive(Debug, Clone, Copy, PartialEq, Eq)]
pub enum SolveError {
    /// The word at this position is not in the word list.
    InvalidWord(usize),
}

/// The SHA-256 digest of `data`.
pub uninterp spec fn sha256_of(data: Seq<u8>) -> Seq<u8>;

/// Relies on `openssl::sha::sha256`: the SHA-256 digest of `data`, which
/// depends on `data` alone.
#[verifier::external_body]
fn sha256(data: &[u8]) -> (r: [u8; 32])
    ensures
        r@ == sha256_of(data@),
{
    openssl::sha::sha256(data)
}

/// The indices of the words of `words` in the list.
pub open spec fn phrase_indices(words: Seq<&str>) -> Seq<u16> {
    words.map_values(|w: &str| word_index(w@) as u16)
}

/// Every word of `words` is in the list.
pub open spec fn all_in_wordlist(words: Seq<&str>) -> bool {
    forall|i: int| 0 <= i < words.len() ==> in_wordlist(#[trigger] words[i]@)
}

/// The entropy block of a mnemonic whose leading words have indices `known`
/// and whose last word carries `nonce` in its free bits.
pub open spec fn entropy_block(known: Seq<u16>, nonce: nat, t: MnemonicLength) -> Seq<u8> {
    pack_bytes(word_fields(known) + field_bits(nonce, t.spec_nonce_bits()))
}

/// The checksum that the first byte of a digest gives: its `checksum_bits`
/// most significant bits.
pub open spec fn checksum_of(digest_first: u8, checksum_bits: nat) -> nat {
    digest_first as nat / pow2((8 - checksum_bits) as nat)
}

/// The index of the last word whose free bits hold `nonce`: the nonce,
/// then the checksum of the entropy block it completes.
pub open spec fn candidate_index(known: Seq<u16>, nonce: nat, t: MnemonicLength) -> nat {
    nonce * pow2(t.spec_checksum_bits()) + checksum_of(
        sha256_of(entropy_block(known, nonce, t))[0],
        t.spec_checksum_bits(),
    )
}

/// The BIP39 checksum rule for a mnemonic of length `t` whose words have
/// indices `phrase`: the words' eleven-bit fields in turn make one bit
/// string; its first `entropy_bits` bits are the entropy, and the
/// `checksum_bits` bits after them must equal the first bits of the SHA-256
/// digest of the entropy's bytes.
pub open spec fn checksum_matches(phrase: Seq<u16>, t: MnemonicLength) -> bool {
    let b = word_fields(phrase);
    let e = t.spec_entropy_bits() as int;
    bits_value(b.skip(e)) == checksum_of(sha256_of(pack_bytes(b.take(e)))[0], t.spec_checksum_bits())
}

/// The words that complete `words` to a mnemonic of length `t`, one for
/// each nonce in ascending order.
pub open spec fn checkwords_of(words: Seq<&str>, t: MnemonicLength) -> Seq<Seq<char>> {
    Seq::new(
        pow2(t.spec_nonce_bits()),
        |n: int| english_word(candidate_index(phrase_indices(words), n as nat, t) as int),
    )
}

proof fn lemma_widths(t: MnemonicLength)
    ensures
        pow2(t.spec_checksum_bits()) * pow2(t.spec_nonce_bits()) == 2048,
        pow2((8 - t.spec_checksum_bits()) as nat) * pow2(t.spec_checksum_bits()) == 256,
        pow2(t.spec_nonce_bits()) <= 128,
        pow2(t.spec_checksum_bits()) >= 16,
        pow2((8 - t.spec_checksum_bits()) as nat) >= 1,
{
    lemma2_to64();
    match t {
        MnemonicLength::Words12 => {
            assert(pow2(4) * pow2(7) == 2048);
            assert(pow2(4) * pow2(4) == 256);
        },
        MnemonicLength::Words15 => {
            assert(pow2(5) * pow2(6) == 2048);
            assert(pow2(3) * pow2(5) == 256);
        },
        MnemonicLength::Words18 => {
            assert(pow2(6) * pow2(5) == 2048);
            assert(pow2(2) * pow2(6) == 256);
        },
        MnemonicLength::Words21 => {
            assert(pow2(7) * pow2(4) == 2048);
            assert(pow2(1) * pow2(7) == 256);
        },
        MnemonicLength::Words24 => {
            assert(pow2(8) * pow2(3) == 2048);
            assert(pow2(0) * pow2(8) == 256);
        },
    }
}

/// The index of the last word for `nonce`, given the first byte of the
/// digest of the entropy block that `nonce` completes.
pub fn checkword_index(nonce: u16, checksum_bits: u8, digest_first: u8) -> (r: u16)
    requires
        4 <= checksum_bits <= 8,
        nonce < pow2((11 - checksum_bits) as nat),
    ensures
        r == nonce * pow2(checksum_bits as nat) + checksum_of(digest_first, checksum_bits as nat),
        r < 2048,
{
    let c: u16 = checksum_bits as u16;
    let shift: u16 = 8 - c;
    let top: u16 = 1u16 << c;
    proof {
        assert(1u16 << c >= 1u16) by (bit_vector)
            requires
                c <= 8,
        ;
    }
    let low: u16 = top - 1;
    let mask: u16 = low << shift;
    let first: u16 = digest_first as u16;
    let checksum: u16 = (first & mask) >> shift;
    proof {
        lemma2_to64();
        assert((first & mask) >> shift == first >> shift && (first >> shift) < (1u16 << c))
            by (bit_vector)
            requires
                first < 256,
                4 <= c <= 8,
                shift == 8 - c,
                top == 1u16 << c,
                low == top - 1,
                mask == low << shift,
        ;
        lemma_u16_shr_is_div(first, shift);
        assert(pow2(c as nat) <= 256 && pow2((11 - c) as nat) <= 128 && pow2((11 - c) as nat)
            * pow2(c as nat) == 2048) by {
            assert(c == 4 || c == 5 || c == 6 || c == 7 || c == 8);
        }
        lemma_u16_shl_is_mul(1, c);
        assert(nonce * pow2(c as nat) < 2048) by (nonlinear_arith)
            requires
                nonce < pow2((11 - c) as nat),
                pow2((11 - c) as nat) * pow2(c as nat) == 2048,
        ;
        lemma_u16_shl_is_mul(nonce, c);
        assert((nonce << c) | checksum == (nonce << c) + checksum) by (bit_vector)
            requires
                checksum < (1u16 << c),
                c <= 8,
                nonce < 128,
        ;
        assert((nonce as nat + 1) * pow2(c as nat) <= 2048) by (nonlinear_arith)
            requires
                nonce < pow2((11 - c) as nat),
                pow2((11 - c) as nat) * pow2(c as nat) == 2048,
        ;
    }
    (nonce << c) | checksum
}

proof fn lemma_checksum_bound(first: u8, t: MnemonicLength)
    ensures
        checksum_of(first, t.spec_checksum_bits()) < pow2(t.spec_checksum_bits()),
{
    lemma_widths(t);
    let q = pow2((8 - t.spec_checksum_bits()) as nat) as int;
    let p = pow2(t.spec_checksum_bits()) as int;
    let x = first as int;
    lemma_fundamental_div_mod(x, q);
    assert(x / q < p) by (nonlinear_arith)
        requires
            x == q * (x / q) + (x % q),
            0 <= x % q,
            x < 256,
            q * p == 256,
            q >= 1,
    ;
}

/// With the leading words fixed, the checksum rule reads the last index
/// `last` as a nonce in its high bits and a checksum in its low bits.
proof fn lemma_checksum_rule(known: Seq<u16>, t: MnemonicLength, last: u16)
    requires
        known.len() + 1 == t.spec_word_count(),
    ensures
        checksum_matches(known.push(last), t) <==> last as nat % pow2(t.spec_checksum_bits())
            == checksum_of(
            sha256_of(entropy_block(known, last as nat / pow2(t.spec_checksum_bits()), t))[0],
            t.spec_checksum_bits(),
        ),
{
    let cb = t.spec_checksum_bits();
    let nb = t.spec_nonce_bits();
    let p = pow2(cb);
    let hi = field_bits(last as nat / p, nb);
    let lo = field_bits(last as nat % p, cb);
    lemma_word_fields_push(known, last);
    lemma_field_bits_split(last as nat, nb, cb);
    assert(nb + cb == 11);
    let front = word_fields(known) + hi;
    let b = word_fields(known.push(last));
    assert(b =~= front + lo);
    lemma_word_fields_len(known);
    lemma_field_bits_len(last as nat / p, nb);
    let e = t.spec_entropy_bits() as int;
    assert(front.len() == e);
    assert(b.take(e) =~= front);
    assert(b.skip(e) =~= lo);
    lemma_field_bits_value(last as nat % p, cb);
    vstd::arithmetic::power2::lemma_pow2_pos(cb);
    assert((last as nat % p) % p == last as nat % p) by {
        vstd::arithmetic::div_mod::lemma_mod_twice(last as int, p as int);
    }
}

/// Soundness: the word for every nonce completes the leading words to a
/// mnemonic that passes the BIP39 checksum rule, and it is a word of the
/// list.
pub proof fn lemma_candidates_pass_checksum(known: Seq<u16>, t: MnemonicLength, nonce: nat)
    requires
        known.len() + 1 == t.spec_word_count(),
        nonce < pow2(t.spec_nonce_bits()),
    ensures
        candidate_index(known, nonce, t) < 2048,
        checksum_matches(known.push(candidate_index(known, nonce, t) as u16), t),
{
    lemma_candidate_parts(known, t, nonce);
    lemma_checksum_rule(known, t, candidate_index(known, nonce, t) as u16);
}

proof fn lemma_candidate_parts(known: Seq<u16>, t: MnemonicLength, nonce: nat)
    requires
        nonce < pow2(t.spec_nonce_bits()),
    ensures
        candidate_index(known, nonce, t) < 2048,
        candidate_index(known, nonce, t) / pow2(t.spec_checksum_bits()) == nonce,
        candidate_index(known, nonce, t) % pow2(t.spec_checksum_bits()) == checksum_of(
            sha256_of(entropy_block(known, nonce, t))[0],
            t.spec_checksum_bits(),
        ),
{
    lemma_widths(t);
    let p = pow2(t.spec_checksum_bits());
    let cs = checksum_of(sha256_of(entropy_block(known, nonce, t))[0], t.spec_checksum_bits());
    lemma_checksum_bound(sha256_of(entropy_block(known, nonce, t))[0], t);
    let c = candidate_index(known, nonce, t);
    lemma_fundamental_div_mod_converse(c as int, p as int, nonce as int, cs as int);
    assert(c < 2048) by (nonlinear_arith)
        requires
            c == nonce * p + cs,
            cs < p,
            nonce < pow2(t.spec_nonce_bits()),
            p * pow2(t.spec_nonce_bits()) == 2048,
    ;
}

/// Exhaustiveness: every last word that completes the leading words to a
/// mnemonic passing the BIP39 checksum rule is the candidate for the nonce
/// held in its high bits.
pub proof fn lemma_checksum_match_is_candidate(known: Seq<u16>, t: MnemonicLength, last: u16)
    requires
        known.len() + 1 == t.spec_word_count(),
        last < 2048,
        checksum_matches(known.push(last), t),
    ensures
        last as nat / pow2(t.spec_checksum_bits()) < pow2(t.spec_nonce_bits()),
        candidate_index(known, last as nat / pow2(t.spec_checksum_bits()), t) == last,
{
    lemma_checksum_rule(known, t, last);
    lemma_widths(t);
    let p = pow2(t.spec_checksum_bits()) as int;
    let x = last as int;
    lemma_fundamental_div_mod(x, p);
    assert(x / p < pow2(t.spec_nonce_bits())) by (nonlinear_arith)
        requires
            x == p * (x / p) + (x % p),
            0 <= x % p,
            x < 2048,
            p * pow2(t.spec_nonce_bits()) == 2048,
            p >= 1,
    ;
}

/// Candidates come in ascending order of nonce and of index, so no two
/// nonces give the same index.
pub proof fn lemma_candidates_ascending(known: Seq<u16>, t: MnemonicLength, a: nat, b: nat)
    requires
        a < b,
    ensures
        candidate_index(known, a, t) < candidate_index(known, b, t),
{
    lemma_widths(t);
    let p = pow2(t.spec_checksum_bits());
    let ca = checksum_of(sha256_of(entropy_block(known, a, t))[0], t.spec_checksum_bits());
    let cb = checksum_of(sha256_of(entropy_block(known, b, t))[0], t.spec_checksum_bits());
    lemma_checksum_bound(sha256_of(entropy_block(known, a, t))[0], t);
    assert(a * p + ca < b * p + cb) by (nonlinear_arith)
        requires
            a < b,
            ca < p,
            cb >= 0,
    ;
}

/// Determinism: the words found depend on the leading words and the length
/// alone, so two results that meet the contract of `solve_checkwords` on the
/// same input hold the same words in the same order.
pub proof fn lemma_solve_deterministic(
    words: Seq<&str>,
    t: MnemonicLength,
    first: Seq<&str>,
    second: Seq<&str>,
)
    requires
        first.len() == pow2(t.spec_nonce_bits()),
        second.len() == pow2(t.spec_nonce_bits()),
        forall|n: int| 0 <= n < first.len() ==> #[trigger] first[n]@ == checkwords_of(words, t)[n],
        forall|n: int| 0 <= n < second.len() ==> #[trigger] second[n]@ == checkwords_of(words, t)[n],
    ensures
        first.len() == second.len(),
        forall|n: int| 0 <= n < first.len() ==> #[trigger] first[n]@ == second[n]@,
{
    assert forall|n: int| 0 <= n < first.len() implies #[trigger] first[n]@ == second[n]@ by {
        assert(first[n]@ == checkwords_of(words, t)[n]);
        assert(second[n]@ == checkwords_of(words, t)[n]);
    }
}

/// The entropy block made of the 11-bit fields of `indices` followed by
/// `nonce` in `nonce_bits` bits.
pub fn pack_entropy(indices: &Vec<u16>, nonce: u16, nonce_bits: u8) -> (r: Vec<u8>)
    requires
        forall|i: int| 0 <= i < indices@.len() ==> indices@[i] < 2048,
        nonce_bits <= 16,
        nonce < pow2(nonce_bits as nat),
        (11 * indices@.len() + nonce_bits) % 8 == 0,
    ensures
        r@ == pack_bytes(word_fields(indices@) + field_bits(nonce as nat, nonce_bits as nat)),
{
    let mut writer = new_writer();
    let mut k: usize = 0;
    proof {
        lemma2_to64();
        assert(indices@.take(0) =~= Seq::<u16>::empty());
    }
    while k < indices.len()
        invariant
            k <= indices@.len(),
            forall|i: int| 0 <= i < indices@.len() ==> indices@[i] < 2048,
            pow2(11) == 2048,
            written_bits(writer) == word_fields(indices@.take(k as int)),
        decreases indices@.len() - k,
    {
        write_field(&mut writer, BITS_PER_WORD as u32, indices[k]);
        proof {
            assert(indices@.take(k + 1).drop_last() =~= indices@.take(k as int));
        }
        k = k + 1;
    }
    write_field(&mut writer, nonce_bits as u32, nonce);
    proof {
        assert(indices@.take(k as int) =~= indices@);
        lemma_word_fields_len(indices@);
        lemma_field_bits_len(nonce as nat, nonce_bits as nat);
    }
    into_bytes(writer)
}

/// Every word that completes `words` to a mnemonic of length
/// `mnemonic_type` with a valid checksum, one for each nonce in ascending
/// order.
///
/// Fails with the position of the first word that is not in the list.
pub fn solve_checkwords(words: &[&str], mnemonic_type: MnemonicLength) -> (r: Result<
    Vec<&'static str>,
    SolveError,
>)
    requires
        words@.len() + 1 == mnemonic_type.spec_word_count(),
    ensures
        r matches Ok(found) ==> {
            &&& all_in_wordlist(words@)
            &&& found@.len() == pow2(mnemonic_type.spec_nonce_bits())
            &&& forall|n: int|
                0 <= n < found@.len() ==> #[trigger] found@[n]@ == checkwords_of(
                    words@,
                    mnemonic_type,
                )[n] && in_wordlist(found@[n]@) && word_index(found@[n]@) == candidate_index(
                    phrase_indices(words@),
                    n as nat,
                    mnemonic_type,
                )
            &&& forall|a: int, b: int|
                0 <= a < b < found@.len() ==> #[trigger] found@[a]@ != #[trigger] found@[b]@
        },
        r matches Err(SolveError::InvalidWord(i)) ==> {
            &&& i < words@.len()
            &&& !in_wordlist(words@[i as int]@)
            &&& forall|j: int| 0 <= j < i ==> in_wordlist(#[trigger] words@[j]@)
        },
        r is Ok <==> all_in_wordlist(words@),
{
    let check_bits = mnemonic_type.checksum_bits();
    let nonce_bits: u8 = 11 - check_bits;
    let mut indices: Vec<u16> = Vec::new();
    let mut i: usize = 0;
    while i < words.len()
        invariant
            i <= words@.len(),
            indices@.len() == i,
            forall|j: int|
                0 <= j < i ==> in_wordlist(#[trigger] words@[j]@) && indices@[j] as int
                    == word_index(words@[j]@) && indices@[j] < 2048,
        decreases words@.len() - i,
    {
        let word = words[i];
        match lookup_word(word) {
            Some(ix) => {
                let ghost prev = indices@;
                indices.push(ix);
                assert(words@[i as int] == word);
                assert(indices@[i as int] == ix);
                assert(in_wordlist(words@[i as int]@));
                assert(ix as int == word_index(words@[i as int]@));
                assert forall|j: int| 0 <= j < i + 1 implies in_wordlist(#[trigger] words@[j]@)
                    && indices@[j] as int == word_index(words@[j]@) && indices@[j] < 2048 by {
                    if j < i {
                        assert(indices@[j] == prev[j]);
                    }
                }
            },
            None => {
                return Err(SolveError::InvalidWord(i));
            },
        }
        i = i + 1;
    }
    let ghost known = phrase_indices(words@);
    assert(indices@ =~= known);
    assert(all_in_wordlist(words@));
    proof {
        lemma_widths(mnemonic_type);
        lemma_u16_shl_is_mul(1, nonce_bits as u16);
    }
    let max_nonce: u16 = 1u16 << (nonce_bits as u16);
    let mut found: Vec<&'static str> = Vec::new();
    let mut nonce: u16 = 0;
    while nonce < max_nonce
        invariant
            indices@ == known,
            all_in_wordlist(words@),
            forall|j: int| 0 <= j < indices@.len() ==> indices@[j] < 2048,
            indices@.len() + 1 == mnemonic_type.spec_word_count(),
            check_bits == mnemonic_type.spec_checksum_bits(),
            nonce_bits == mnemonic_type.spec_nonce_bits(),
            max_nonce == pow2(nonce_bits as nat),
            pow2(nonce_bits as nat) <= 128,
            nonce <= max_nonce,
            found@.len() == nonce,
            forall|n: int|
                0 <= n < nonce ==> #[trigger] found@[n]@ == english_word(
                    candidate_index(known, n as nat, mnemonic_type) as int,
                ) && in_wordlist(found@[n]@) && word_index(found@[n]@) == candidate_index(
                    known,
                    n as nat,
                    mnemonic_type,
                ),
            forall|a: int, b: int|
                0 <= a < b < nonce ==> #[trigger] found@[a]@ != #[trigger] found@[b]@,
        decreases max_nonce - nonce,
    {
        let block = pack_entropy(&indices, nonce, nonce_bits);
        let digest = sha256(block.as_slice());
        let idx = checkword_index(nonce, check_bits, digest[0]);
        let word = word_at(idx);
        proof {
            let j = word_index(word@);
            assert(0 <= idx < 2048 && english_word(idx as int) == word@);
            assert(0 <= j < 2048 && english_word(j) == word@);
            assert(j == idx);
            assert forall|n: int| 0 <= n < nonce implies #[trigger] found@[n]@ != word@ by {
                lemma_candidates_ascending(known, mnemonic_type, n as nat, nonce as nat);
                lemma_candidate_parts(known, mnemonic_type, n as nat);
            }
        }
        let ghost prev = found@;
        found.push(word);
        proof {
            assert forall|a: int, b: int| 0 <= a < b < nonce + 1 implies #[trigger] found@[a]@
                != #[trigger] found@[b]@ by {
                assert(found@[a] == prev[a]);
                if b < nonce {
                    assert(found@[b] == prev[b]);
                }
            }
        }
        nonce = nonce + 1;
    }
    assert(forall|n: int|
        0 <= n < found@.len() ==> #[trigger] found@[n]@ == checkwords_of(words@, mnemonic_type)[n]);
    Ok(found)
}

} // verus!

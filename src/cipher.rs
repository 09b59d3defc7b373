//! RC5 with 32-bit words, 12 rounds and a 16-byte key: key schedule
//! expansion, and encryption and decryption of one two-word block.
use vstd::prelude::*;
use crate::packing::{bytes_to_words, words_of};
use crate::word::{
    lemma_add_sub_cancel, lemma_rotl_rotr, lemma_rotr_rotl, rotate_left, rotate_right, rotl, rotr,
    ArithExt,
};

verus! {

/// Magic constant derived from e, the first entry of the unmixed key table.
pub const P32: u32 = 0xb7e15163;

/// Magic constant derived from the golden ratio, the step between entries
/// of the unmixed key table.
pub const Q32: u32 = 0x9e3779b9;

/// Number of rounds.
pub const ROUNDS: usize = 12;

/// Number of bytes in a secret key.
pub const KEY_BYTES: usize = 16;

/// Number of words a secret key packs into.
pub const KEY_WORDS: usize = 4;

/// Number of words in an expanded key table: two for each round and two for
/// whitening.
pub const KEY_TABLE_WORDS: usize = 26;

/// Number of words in a block.
pub const BLOCK_WORDS: usize = 2;

/// Entry `i` of the key table before the secret key is mixed in.
pub open spec fn initial_entry(i: nat) -> u32
    decreases i,
{
    if i == 0 {
        P32
    } else {
        initial_entry((i - 1) as nat).add_spec(Q32)
    }
}

/// The key table before the secret key is mixed in.
pub open spec fn initial_table() -> Seq<u32> {
    Seq::new(KEY_TABLE_WORDS as nat, |i: int| initial_entry(i as nat))
}

/// The state of the mixing pass: key table, key words, and the running
/// values `A` and `B`.
pub type MixState = (Seq<u32>, Seq<u32>, u32, u32);

/// Mixing step `k`: it updates key table entry `k % 26` and key word `k % 4`.
pub open spec fn mix_step(s: MixState, k: nat) -> MixState {
    let t = (k % KEY_TABLE_WORDS as nat) as int;
    let w = (k % KEY_WORDS as nat) as int;
    let a = rotl(s.0[t].add_spec(s.2).add_spec(s.3), 3);
    let b = rotl(s.1[w].add_spec(a).add_spec(s.3), a.add_spec(s.3));
    (s.0.update(t, a), s.1.update(w, b), a, b)
}

/// The mixing state after the first `k` steps for the secret key `key`.
pub open spec fn mixed(key: Seq<u8>, k: nat) -> MixState
    decreases k,
{
    if k == 0 {
        (initial_table(), words_of(key), 0u32, 0u32)
    } else {
        mix_step(mixed(key, (k - 1) as nat), (k - 1) as nat)
    }
}

/// The expanded key table of the secret key `key`: the table after three
/// passes of mixing over its 26 entries.
pub open spec fn expanded_key(key: Seq<u8>) -> Seq<u32> {
    mixed(key, 3 * KEY_TABLE_WORDS as nat).0
}

/// Encryption round `i` applied to the block `ab`.
pub open spec fn enc_round(kt: Seq<u32>, ab: (u32, u32), i: int) -> (u32, u32) {
    let a = rotl(ab.0 ^ ab.1, ab.1).add_spec(kt[2 * i]);
    let b = rotl(ab.1 ^ a, a).add_spec(kt[2 * i + 1]);
    (a, b)
}

/// The block `ab` after encryption rounds `1 ..= n`, in increasing order.
pub open spec fn enc_rounds(kt: Seq<u32>, ab: (u32, u32), n: nat) -> (u32, u32)
    decreases n,
{
    if n == 0 {
        ab
    } else {
        enc_round(kt, enc_rounds(kt, ab, (n - 1) as nat), n as int)
    }
}

/// Decryption round `i` applied to the block `ab`: it undoes encryption
/// round `i`.
pub open spec fn dec_round(kt: Seq<u32>, ab: (u32, u32), i: int) -> (u32, u32) {
    let b = rotr(ab.1.sub_spec(kt[2 * i + 1]), ab.0) ^ ab.0;
    let a = rotr(ab.0.sub_spec(kt[2 * i]), b) ^ b;
    (a, b)
}

/// The block `ab` after decryption rounds `12` down to `n + 1`.
pub open spec fn dec_rounds(kt: Seq<u32>, ab: (u32, u32), n: nat) -> (u32, u32)
    decreases ROUNDS - n,
{
    if n >= ROUNDS {
        ab
    } else {
        dec_round(kt, dec_rounds(kt, ab, n + 1), n + 1 as int)
    }
}

/// The ciphertext of the block `pt` under the key table `kt`.
pub open spec fn encoded(kt: Seq<u32>, pt: Seq<u32>) -> Seq<u32> {
    let ab = enc_rounds(kt, (pt[0].add_spec(kt[0]), pt[1].add_spec(kt[1])), ROUNDS as nat);
    seq![ab.0, ab.1]
}

/// The plaintext of the block `ct` under the key table `kt`.
pub open spec fn decoded(kt: Seq<u32>, ct: Seq<u32>) -> Seq<u32> {
    let ab = dec_rounds(kt, (ct[0], ct[1]), 0);
    seq![ab.0.sub_spec(kt[0]), ab.1.sub_spec(kt[1])]
}

proof fn lemma_cursor_step(k: nat, c: nat, n: nat)
    requires
        n > 1,
        c == k % n,
    ensures
        (c + 1) % n == (k + 1) % n,
{
    vstd::arithmetic::div_mod::lemma_add_mod_noop(k as int, 1, n as int);
    vstd::arithmetic::div_mod::lemma_small_mod(1, n);
}

/// Expands the 16-byte secret key `key` into the 26-word key table.
pub fn key_table(key: &Vec<u8>) -> (r: Vec<u32>)
    requires
        key@.len() == KEY_BYTES,
    ensures
        r@ == expanded_key(key@),
        r@.len() == KEY_TABLE_WORDS,
{
    // Convert the secret key from bytes to words.
    let mut key_words = bytes_to_words(key, KEY_WORDS);

    // Fill the table with an arithmetic progression that starts at P32 and
    // steps by Q32.
    let mut table: Vec<u32> = Vec::new();
    let mut v: u32 = 0;
    let mut i: usize = 0;
    while i < KEY_TABLE_WORDS
        invariant
            i <= KEY_TABLE_WORDS,
            table@.len() == i,
            forall|k: int| 0 <= k < i ==> #[trigger] table@[k] == initial_entry(k as nat),
            i > 0 ==> v == initial_entry((i - 1) as nat),
        decreases KEY_TABLE_WORDS - i,
    {
        v = if i == 0 {
            P32
        } else {
            v.platform_add(Q32)
        };
        table.push(v);
        i = i + 1;
    }
    assert(table@ =~= initial_table());

    // Mix in the secret key: three passes over the table, with a cursor over
    // the table and one over the key words, each wrapping at its length.
    let mut a: u32 = 0;
    let mut b: u32 = 0;
    let mut t: usize = 0;
    let mut w: usize = 0;
    let mut k: usize = 0;
    while k < 3 * table.len()
        invariant
            k <= 3 * KEY_TABLE_WORDS,
            table@.len() == KEY_TABLE_WORDS,
            key_words@.len() == KEY_WORDS,
            t == k % KEY_TABLE_WORDS,
            w == k % KEY_WORDS,
            (table@, key_words@, a, b) == mixed(key@, k as nat),
        decreases 3 * KEY_TABLE_WORDS - k,
    {
        let ghost before: MixState = (table@, key_words@, a, b);
        a = rotate_left(table[t].platform_add(a).platform_add(b), 3);
        table.set(t, a);
        b = rotate_left(key_words[w].platform_add(a).platform_add(b), a.platform_add(b));
        key_words.set(w, b);
        proof {
            assert((table@, key_words@, a, b) == mix_step(before, k as nat));
            lemma_cursor_step(k as nat, t as nat, KEY_TABLE_WORDS as nat);
            lemma_cursor_step(k as nat, w as nat, KEY_WORDS as nat);
        }
        t = (t + 1) % table.len();
        w = (w + 1) % key_words.len();
        k = k + 1;
    }
    table
}

/// Encrypts the block `plaintext` with the expanded key table `key_table`.
pub fn encode(key_table: Vec<u32>, plaintext: Vec<u32>) -> (r: Vec<u32>)
    requires
        key_table@.len() == KEY_TABLE_WORDS,
        plaintext@.len() == BLOCK_WORDS,
    ensures
        r@ == encoded(key_table@, plaintext@),
{
    let ghost kt = key_table@;
    let ghost initial = (plaintext@[0].add_spec(kt[0]), plaintext@[1].add_spec(kt[1]));
    let mut a: u32 = plaintext[0].platform_add(key_table[0]);
    let mut b: u32 = plaintext[1].platform_add(key_table[1]);
    let mut i: usize = 1;
    while i <= ROUNDS
        invariant
            1 <= i <= ROUNDS + 1,
            kt == key_table@,
            kt.len() == KEY_TABLE_WORDS,
            (a, b) == enc_rounds(kt, initial, (i - 1) as nat),
        decreases ROUNDS + 1 - i,
    {
        a = rotate_left(a ^ b, b).platform_add(key_table[2 * i]);
        b = rotate_left(b ^ a, a).platform_add(key_table[2 * i + 1]);
        i = i + 1;
    }
    let r = vec![a, b];
    assert(r@ =~= encoded(kt, plaintext@));
    r
}

/// Decrypts the block `ciphertext` with the expanded key table `key_table`.
pub fn decode(key_table: Vec<u32>, ciphertext: Vec<u32>) -> (r: Vec<u32>)
    requires
        key_table@.len() == KEY_TABLE_WORDS,
        ciphertext@.len() == BLOCK_WORDS,
    ensures
        r@ == decoded(key_table@, ciphertext@),
{
    let ghost kt = key_table@;
    let ghost initial = (ciphertext@[0], ciphertext@[1]);
    let mut a: u32 = ciphertext[0];
    let mut b: u32 = ciphertext[1];
    let mut i: usize = ROUNDS;
    while i >= 1
        invariant
            i <= ROUNDS,
            kt == key_table@,
            kt.len() == KEY_TABLE_WORDS,
            (a, b) == dec_rounds(kt, initial, i as nat),
        decreases i,
    {
        b = rotate_right(b.platform_sub(key_table[2 * i + 1]), a) ^ a;
        a = rotate_right(a.platform_sub(key_table[2 * i]), b) ^ b;
        i = i - 1;
    }
    let r = vec![a.platform_sub(key_table[0]), b.platform_sub(key_table[1])];
    assert(r@ =~= decoded(kt, ciphertext@));
    r
}

proof fn lemma_xor_cancel(x: u32, y: u32)
    ensures
        (x ^ y) ^ y == x,
{
    assert((x ^ y) ^ y == x) by (bit_vector);
}

/// Decryption round `i` undoes encryption round `i`, and the other way round.
proof fn lemma_round_inverse(kt: Seq<u32>, ab: (u32, u32), i: int)
    ensures
        dec_round(kt, enc_round(kt, ab, i), i) == ab,
        enc_round(kt, dec_round(kt, ab, i), i) == ab,
{
    let (a, b) = ab;
    let k0 = kt[2 * i];
    let k1 = kt[2 * i + 1];

    let a1 = rotl(a ^ b, b).add_spec(k0);
    let b1 = rotl(b ^ a1, a1).add_spec(k1);
    lemma_add_sub_cancel(rotl(b ^ a1, a1), k1);
    lemma_rotr_rotl(b ^ a1, a1);
    lemma_xor_cancel(b, a1);
    lemma_add_sub_cancel(rotl(a ^ b, b), k0);
    lemma_rotr_rotl(a ^ b, b);
    lemma_xor_cancel(a, b);

    let b2 = rotr(b.sub_spec(k1), a) ^ a;
    let a2 = rotr(a.sub_spec(k0), b2) ^ b2;
    lemma_xor_cancel(rotr(a.sub_spec(k0), b2), b2);
    lemma_rotl_rotr(a.sub_spec(k0), b2);
    lemma_add_sub_cancel(a, k0);
    lemma_xor_cancel(rotr(b.sub_spec(k1), a), a);
    lemma_rotl_rotr(b.sub_spec(k1), a);
    lemma_add_sub_cancel(b, k1);
}

/// Decrypting rounds `n` down to `lo + 1` of a block that went through
/// encryption rounds `1 ..= n` leaves it as after rounds `1 ..= lo`.
proof fn lemma_dec_after_enc(kt: Seq<u32>, ab: (u32, u32), lo: nat)
    requires
        lo <= ROUNDS,
    ensures
        dec_rounds(kt, enc_rounds(kt, ab, ROUNDS as nat), lo) == enc_rounds(kt, ab, lo),
    decreases ROUNDS - lo,
{
    if lo < ROUNDS {
        lemma_dec_after_enc(kt, ab, lo + 1);
        lemma_round_inverse(kt, enc_rounds(kt, ab, lo), lo + 1 as int);
    }
}

/// Encrypting rounds `1 ..= n` of a fully decrypted block gives it back as it
/// was before decryption rounds `12` down to `n + 1`.
proof fn lemma_enc_after_dec(kt: Seq<u32>, ab: (u32, u32), n: nat)
    requires
        n <= ROUNDS,
    ensures
        enc_rounds(kt, dec_rounds(kt, ab, 0), n) == dec_rounds(kt, ab, n),
    decreases n,
{
    if n > 0 {
        lemma_enc_after_dec(kt, ab, (n - 1) as nat);
        lemma_round_inverse(kt, dec_rounds(kt, ab, n), n as int);
    }
}

/// Decrypting the encryption of a block with the same key table gives the
/// block back.
pub proof fn lemma_decode_encode(kt: Seq<u32>, pt: Seq<u32>)
    requires
        kt.len() == KEY_TABLE_WORDS,
        pt.len() == BLOCK_WORDS,
    ensures
        decoded(kt, encoded(kt, pt)) == pt,
{
    let initial = (pt[0].add_spec(kt[0]), pt[1].add_spec(kt[1]));
    lemma_dec_after_enc(kt, initial, 0);
    lemma_add_sub_cancel(pt[0], kt[0]);
    lemma_add_sub_cancel(pt[1], kt[1]);
    assert(decoded(kt, encoded(kt, pt)) =~= pt);
}

/// Encrypting the decryption of a block with the same key table gives the
/// block back.
pub proof fn lemma_encode_decode(kt: Seq<u32>, ct: Seq<u32>)
    requires
        kt.len() == KEY_TABLE_WORDS,
        ct.len() == BLOCK_WORDS,
    ensures
        encoded(kt, decoded(kt, ct)) == ct,
{
    let ab = dec_rounds(kt, (ct[0], ct[1]), 0);
    lemma_enc_after_dec(kt, (ct[0], ct[1]), ROUNDS as nat);
    lemma_add_sub_cancel(ab.0, kt[0]);
    lemma_add_sub_cancel(ab.1, kt[1]);
    assert(encoded(kt, decoded(kt, ct)) =~= ct);
}

/// Mixing keeps the key table at 26 entries and the key words at four.
proof fn lemma_mixed_len(key: Seq<u8>, k: nat)
    requires
        key.len() == KEY_BYTES,
    ensures
        mixed(key, k).0.len() == KEY_TABLE_WORDS,
        mixed(key, k).1.len() == KEY_WORDS,
    decreases k,
{
    if k > 0 {
        lemma_mixed_len(key, (k - 1) as nat);
    }
}

/// The expanded key table of a 16-byte key has 26 entries.
pub proof fn lemma_expanded_key_len(key: Seq<u8>)
    requires
        key.len() == KEY_BYTES,
    ensures
        expanded_key(key).len() == KEY_TABLE_WORDS,
{
    lemma_mixed_len(key, 3 * KEY_TABLE_WORDS as nat);
}

/// For every 16-byte key, decrypting under its key table the encryption of a
/// block under that same table gives the block back.
pub proof fn lemma_round_trip(key: Seq<u8>, pt: Seq<u32>)
    requires
        key.len() == KEY_BYTES,
        pt.len() == BLOCK_WORDS,
    ensures
        decoded(expanded_key(key), encoded(expanded_key(key), pt)) == pt,
{
    lemma_expanded_key_len(key);
    lemma_decode_encode(expanded_key(key), pt);
}

/// The key table depends on the key alone: two expansions of the same key
/// give the same table.
pub proof fn lemma_key_table_deterministic(key1: Seq<u8>, key2: Seq<u8>)
    requires
        key1.len() == KEY_BYTES,
        key1 == key2,
    ensures
        expanded_key(key1) == expanded_key(key2),
{
}

} // verus!

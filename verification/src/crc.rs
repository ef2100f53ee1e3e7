//! CRC-32 (reflected polynomial 0xEDB88320, initial value and final xor
//! 0xFFFFFFFF), computed one byte at a time through a 256-entry table.

use vstd::prelude::*;

verus! {

/// One bit of polynomial division: shift right, xor in the reflected
/// polynomial 0xEDB88320 when the bit shifted out was set.
pub open spec fn crc32_bit_step(c: u32) -> u32 {
    if c & 1u32 == 1u32 {
        (c >> 1u32) ^ 0xEDB88320u32
    } else {
        c >> 1u32
    }
}

/// `n` bit steps applied to `c`.
pub open spec fn crc32_bit_steps(c: u32, n: nat) -> u32
    decreases n,
{
    if n == 0 {
        c
    } else {
        crc32_bit_step(crc32_bit_steps(c, (n - 1) as nat))
    }
}

/// Eight bit steps: the division of one whole byte.
pub open spec fn crc32_shift8(c: u32) -> u32 {
    crc32_bit_step(
        crc32_bit_step(
            crc32_bit_step(
                crc32_bit_step(
                    crc32_bit_step(crc32_bit_step(crc32_bit_step(crc32_bit_step(c)))),
                ),
            ),
        ),
    )
}

/// Entry `i` of the byte-at-a-time lookup table.
pub open spec fn crc32_table_entry(i: int) -> u32 {
    crc32_shift8(i as u32)
}

/// The running CRC state after feeding byte `b` into state `crc`.
pub open spec fn crc32_byte(crc: u32, b: u8) -> u32 {
    crc32_shift8(crc ^ (b as u32))
}

/// The running CRC state after feeding all of `bytes`, in order, into `state`.
pub open spec fn crc32_fold(state: u32, bytes: Seq<u8>) -> u32
    decreases bytes.len(),
{
    if bytes.len() == 0 {
        state
    } else {
        crc32_byte(crc32_fold(state, bytes.drop_last()), bytes.last())
    }
}

/// The CRC-32 checksum of `bytes`.
pub open spec fn spec_crc32(bytes: Seq<u8>) -> u32 {
    !crc32_fold(0xFFFFFFFFu32, bytes)
}

/// Feeding two byte strings one after the other gives the same state as
/// feeding their concatenation.
pub proof fn lemma_crc32_fold_append(state: u32, a: Seq<u8>, b: Seq<u8>)
    ensures
        crc32_fold(state, a + b) == crc32_fold(crc32_fold(state, a), b),
    decreases b.len(),
{
    if b.len() == 0 {
        assert(a + b =~= a);
    } else {
        lemma_crc32_fold_append(state, a, b.drop_last());
        assert((a + b).drop_last() =~= a + b.drop_last());
        assert((a + b).last() == b.last());
    }
}

proof fn lemma_bit_steps_eight(c: u32)
    ensures
        crc32_bit_steps(c, 8) == crc32_shift8(c),
{
    reveal_with_fuel(crc32_bit_steps, 9);
}

/// The table method: the upper 24 bits of the state only shift, so one byte
/// step is a shift by eight xor the table entry of the low byte.
proof fn lemma_shift8_by_table(x: u32)
    ensures
        crc32_shift8(x) == (x >> 8u32) ^ crc32_shift8(x & 0xFFu32),
{
    assert(crc32_shift8(x) == (x >> 8u32) ^ crc32_shift8(x & 0xFFu32)) by (bit_vector);
}

/// One bit step, written without a branch.
fn bit_step(crc: u32) -> (r: u32)
    ensures
        r == crc32_bit_step(crc),
{
    let low = crc & 1u32;
    let mask = 0u32.wrapping_sub(low);
    let r = (crc >> 1u32) ^ (0xEDB88320u32 & mask);
    proof {
        assert(low == 0u32 || low == 1u32) by (bit_vector)
            requires
                low == crc & 1u32,
        ;
        if low == 1u32 {
            assert(mask == 0xFFFFFFFFu32);
            assert(r == crc32_bit_step(crc)) by (bit_vector)
                requires
                    low == crc & 1u32,
                    low == 1u32,
                    mask == 0xFFFFFFFFu32,
                    r == (crc >> 1u32) ^ (0xEDB88320u32 & mask),
            ;
        } else {
            assert(mask == 0u32);
            assert(r == crc32_bit_step(crc)) by (bit_vector)
                requires
                    low == crc & 1u32,
                    low == 0u32,
                    mask == 0u32,
                    r == (crc >> 1u32) ^ (0xEDB88320u32 & mask),
            ;
        }
    }
    r
}

/// The table holds, at every index, the division of that byte.
pub open spec fn is_crc32_table(table: Seq<u32>) -> bool {
    &&& table.len() == 256
    &&& forall|i: int| 0 <= i < 256 ==> #[trigger] table[i] == crc32_table_entry(i)
}

/// Precomputes the CRC-32 lookup table, so that the checksum is computed one
/// byte at a time rather than one bit at a time.
pub fn compute_crc32_table() -> (table: [u32; 256])
    ensures
        is_crc32_table(table@),
{
    let mut table: [u32; 256] = [0u32; 256];
    let mut byte: u32 = 0;
    while byte < 256
        invariant
            byte <= 256,
            table@.len() == 256,
            forall|i: int| 0 <= i < byte ==> #[trigger] table@[i] == crc32_table_entry(i),
        decreases 256 - byte,
    {
        let mut crc: u32 = byte;
        let mut bit: u32 = 0;
        while bit < 8
            invariant
                bit <= 8,
                crc == crc32_bit_steps(byte, bit as nat),
            decreases 8 - bit,
        {
            crc = bit_step(crc);
            bit = bit + 1;
        }
        proof {
            lemma_bit_steps_eight(byte);
        }
        table[byte as usize] = crc;
        byte = byte + 1;
    }
    table
}

/// Feeds `input` into the running CRC state `state`, one byte at a time
/// through `table`; used to chain several slices into one checksum.
pub fn crc32_update(table: &[u32; 256], state: u32, input: &[u8]) -> (r: u32)
    requires
        is_crc32_table(table@),
    ensures
        r == crc32_fold(state, input@),
{
    let mut crc = state;
    let mut i: usize = 0;
    while i < input.len()
        invariant
            i <= input.len(),
            is_crc32_table(table@),
            crc == crc32_fold(state, input@.take(i as int)),
        decreases input.len() - i,
    {
        let b = input[i];
        let x = crc ^ (b as u32);
        let idx = x & 0xFFu32;
        assert(idx < 256) by (bit_vector)
            requires
                idx == x & 0xFFu32,
        ;
        let next = (crc >> 8u32) ^ table[idx as usize];
        proof {
            lemma_shift8_by_table(x);
            assert((crc >> 8u32) == (x >> 8u32)) by (bit_vector)
                requires
                    x == crc ^ (b as u32),
            ;
            assert(input@.take(i + 1).drop_last() =~= input@.take(i as int));
        }
        crc = next;
        i = i + 1;
    }
    assert(input@.take(input.len() as int) =~= input@);
    crc
}

/// Chaining: feeding nothing leaves the state as it is, and feeding two
/// slices one after the other is feeding their concatenation.
pub proof fn law_crc32_update_chains(state: u32, a: Seq<u8>, b: Seq<u8>)
    ensures
        crc32_fold(state, Seq::<u8>::empty()) == state,
        crc32_fold(crc32_fold(state, a), b) == crc32_fold(state, a + b),
{
    lemma_crc32_fold_append(state, a, b);
}

/// Calculates the CRC-32 checksum of a byte slice.
pub fn crc32(input: &[u8]) -> (r: u32)
    ensures
        r == spec_crc32(input@),
{
    let table = compute_crc32_table();
    !crc32_update(&table, 0xFFFFFFFFu32, input)
}

/// The bytes of a slice of byte slices, in order.
pub open spec fn chunks_view(input: Seq<&[u8]>) -> Seq<Seq<u8>> {
    input.map_values(|c: &[u8]| c@)
}

/// Calculates the CRC-32 checksum of several byte slices as if they were one
/// continuous sequence of bytes.
pub fn crc32_chained(input: &[&[u8]]) -> (r: u32)
    ensures
        r == spec_crc32(chunks_view(input@).flatten()),
{
    let table = compute_crc32_table();
    let mut state = 0xFFFFFFFFu32;
    let mut i: usize = 0;
    while i < input.len()
        invariant
            i <= input.len(),
            is_crc32_table(table@),
            state == crc32_fold(0xFFFFFFFFu32, chunks_view(input@.take(i as int)).flatten()),
        decreases input.len() - i,
    {
        let chunk: &[u8] = input[i];
        let ghost before = chunks_view(input@.take(i as int));
        let next = crc32_update(&table, state, chunk);
        proof {
            assert(chunks_view(input@.take(i + 1)) =~= before.push(chunk@));
            before.lemma_flatten_push(chunk@);
            lemma_crc32_fold_append(0xFFFFFFFFu32, before.flatten(), chunk@);
        }
        state = next;
        i = i + 1;
    }
    assert(input@.take(input.len() as int) =~= input@);
    !state
}

/// A bit step loses nothing: the top bit of its result is the bit it shifted
/// out, so the input can be read back.
proof fn lemma_bit_step_injective(a: u32, b: u32)
    ensures
        crc32_bit_step(a) == crc32_bit_step(b) ==> a == b,
{
    assert(crc32_bit_step(a) == crc32_bit_step(b) ==> a == b) by (bit_vector);
}

proof fn lemma_bit_steps_injective(a: u32, b: u32, n: nat)
    ensures
        crc32_bit_steps(a, n) == crc32_bit_steps(b, n) ==> a == b,
    decreases n,
{
    if n > 0 {
        lemma_bit_step_injective(
            crc32_bit_steps(a, (n - 1) as nat),
            crc32_bit_steps(b, (n - 1) as nat),
        );
        lemma_bit_steps_injective(a, b, (n - 1) as nat);
    }
}

/// Feeding the same bytes into two different states gives two different
/// states.
proof fn lemma_fold_injective(s1: u32, s2: u32, bytes: Seq<u8>)
    ensures
        crc32_fold(s1, bytes) == crc32_fold(s2, bytes) ==> s1 == s2,
    decreases bytes.len(),
{
    if bytes.len() > 0 {
        let x1 = crc32_fold(s1, bytes.drop_last());
        let x2 = crc32_fold(s2, bytes.drop_last());
        let c = bytes.last() as u32;
        lemma_bit_steps_eight(x1 ^ c);
        lemma_bit_steps_eight(x2 ^ c);
        lemma_bit_steps_injective(x1 ^ c, x2 ^ c, 8);
        assert((x1 ^ c) == (x2 ^ c) ==> x1 == x2) by (bit_vector);
        lemma_fold_injective(s1, s2, bytes.drop_last());
    }
}

/// CRC-32 detects every single-bit error: flipping bit `j` of byte `i`
/// changes the checksum.
pub proof fn law_crc32_detects_single_bit_error(bytes: Seq<u8>, i: int, j: u8)
    requires
        0 <= i < bytes.len(),
        j < 8,
    ensures
        spec_crc32(bytes.update(i, bytes[i] ^ (1u8 << j))) != spec_crc32(bytes),
{
    let x = bytes[i];
    let y = x ^ (1u8 << j);
    let flipped = bytes.update(i, y);
    let p = bytes.take(i);
    let q = bytes.skip(i + 1);
    assert(bytes =~= (p + seq![x]) + q);
    assert(flipped =~= (p + seq![y]) + q);
    let init = 0xFFFFFFFFu32;
    lemma_crc32_fold_append(init, p + seq![x], q);
    lemma_crc32_fold_append(init, p + seq![y], q);
    lemma_crc32_fold_append(init, p, seq![x]);
    lemma_crc32_fold_append(init, p, seq![y]);
    let t = crc32_fold(init, p);
    assert(seq![x].drop_last() =~= Seq::<u8>::empty());
    assert(seq![y].drop_last() =~= Seq::<u8>::empty());
    assert(crc32_fold(t, Seq::<u8>::empty()) == t);
    assert(seq![x].last() == x && seq![y].last() == y);
    assert(crc32_fold(t, seq![x]) == crc32_byte(t, x));
    assert(crc32_fold(t, seq![y]) == crc32_byte(t, y));
    assert((t ^ (x as u32)) != (t ^ (y as u32))) by (bit_vector)
        requires
            y == x ^ (1u8 << j),
            j < 8,
    ;
    lemma_bit_steps_eight(t ^ (x as u32));
    lemma_bit_steps_eight(t ^ (y as u32));
    lemma_bit_steps_injective(t ^ (x as u32), t ^ (y as u32), 8);
    lemma_fold_injective(crc32_byte(t, x), crc32_byte(t, y), q);
    let a = crc32_fold(init, bytes);
    let b = crc32_fold(init, flipped);
    assert(a != b ==> !a != !b) by (bit_vector);
}

} // verus!

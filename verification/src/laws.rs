//! What holds of the codecs as a whole: decoding undoes encoding, and
//! malformed input is told apart by kind.

use vstd::prelude::*;
use crate::alphabet::{
    is_whitespace,
    lemma_inverse_of_forward,
    lemma_symbols_are_visible,
    Alphabet,
    PAD,
};
use crate::error::CodecError;
use crate::model::{
    block_number,
    byte_at,
    byte_count,
    data_len,
    data_symbols,
    decode_group,
    decode_groups,
    decode_pass,
    decode_symbols,
    decoded,
    decoded_len,
    encode_block,
    encoded,
    ended,
    first_pad,
    group_number,
    group_value,
    last_block_len,
    last_group_len,
    lemma_block_lengths,
    lemma_decode_settled,
    lemma_decode_step,
    lemma_decode_truncated,
    lemma_encoded_len,
    lemma_encoded_symbols,
    lemma_group_lengths,
    lemma_group_sums,
    lemma_kept_all,
    lemma_kept_len,
    lemma_trails,
    misplaced,
    trails,
    unpack,
    value_at,
    visible,
    whole_blocks,
    whole_groups,
};

verus! {

/// The digits of a forty-bit number in base 32 give the number back, and
/// the digits below its lowest set byte are zero.
proof fn lemma_digits40(n: u64)
    by (bit_vector)
    requires
        n < 0x100_0000_0000,
    ensures
        ((n / 0x8_0000_0000) % 32) * 0x8_0000_0000 + ((n / 0x4000_0000) % 32) * 0x4000_0000 + ((n
            / 0x200_0000) % 32) * 0x200_0000 + ((n / 0x10_0000) % 32) * 0x10_0000 + ((n / 0x8000)
            % 32) * 0x8000 + ((n / 0x400) % 32) * 0x400 + ((n / 0x20) % 32) * 0x20 + (n % 32)
            == n,
        n % 0x1_0000_0000 == 0 ==> (n / 0x200_0000) % 32 == 0 && (n / 0x10_0000) % 32 == 0,
        n % 0x100_0000 == 0 ==> (n / 0x8000) % 32 == 0,
        n % 0x1_0000 == 0 ==> (n / 0x400) % 32 == 0 && (n / 0x20) % 32 == 0,
        n % 0x100 == 0 ==> n % 32 == 0,
{
}

/// The bytes of a forty-bit number.
proof fn lemma_bytes40(b0: u8, b1: u8, b2: u8, b3: u8, b4: u8, n: u64)
    by (bit_vector)
    requires
        n == (b0 as u64) * 0x1_0000_0000 + (b1 as u64) * 0x100_0000 + (b2 as u64) * 0x1_0000 + (
        b3 as u64) * 0x100 + (b4 as u64),
    ensures
        n < 0x100_0000_0000,
        (n / 0x1_0000_0000) % 256 == b0,
        (n / 0x100_0000) % 256 == b1,
        (n / 0x1_0000) % 256 == b2,
        (n / 0x100) % 256 == b3,
        n % 256 == b4,
        b1 == 0 && b2 == 0 && b3 == 0 && b4 == 0 ==> n % 0x1_0000_0000 == 0,
        b2 == 0 && b3 == 0 && b4 == 0 ==> n % 0x100_0000 == 0,
        b3 == 0 && b4 == 0 ==> n % 0x1_0000 == 0,
        b4 == 0 ==> n % 0x100 == 0,
{
}

/// The digits of a twenty-four-bit number in base 64 give the number back,
/// and the digits below its lowest set byte are zero.
proof fn lemma_digits24(n: u32)
    by (bit_vector)
    requires
        n < 0x100_0000,
    ensures
        ((n / 0x4_0000) % 64) * 0x4_0000 + ((n / 0x1000) % 64) * 0x1000 + ((n / 0x40) % 64) * 0x40
            + (n % 64) == n,
        n % 0x1_0000 == 0 ==> (n / 0x40) % 64 == 0,
        n % 0x100 == 0 ==> n % 64 == 0,
{
}

/// The bytes of a twenty-four-bit number.
proof fn lemma_bytes24(b0: u8, b1: u8, b2: u8, n: u32)
    by (bit_vector)
    requires
        n == (b0 as u32) * 0x1_0000 + (b1 as u32) * 0x100 + (b2 as u32),
    ensures
        n < 0x100_0000,
        (n / 0x1_0000) % 256 == b0,
        (n / 0x100) % 256 == b1,
        n % 256 == b2,
        b1 == 0 && b2 == 0 ==> n % 0x1_0000 == 0,
        b2 == 0 ==> n % 0x100 == 0,
{
}

/// Where the first `d` symbols of a group are no padding and padding
/// follows, if anything does, the group has `d` data symbols.
proof fn lemma_first_pad(g: Seq<u8>, i: int, d: int)
    requires
        0 <= i <= d <= g.len(),
        forall|j: int| 0 <= j < d ==> g[j] != PAD,
        d == g.len() || g[d] == PAD,
    ensures
        first_pad(g, i) == d,
    decreases d - i,
{
    if i < d {
        lemma_first_pad(g, i + 1, d);
    }
}

/// What the group of a block looks like to the decoder: its data symbols
/// are symbols of the alphabet with the block's group values, and padding
/// fills the rest.
#[verifier::rlimit(30)]
proof fn lemma_block_shape(a: Alphabet, blk: Seq<u8>)
    requires
        1 <= blk.len() <= a.block_raw(),
    ensures
        ({
            let g = encode_block(a, blk);
            let d = data_symbols(a, blk.len() as int);
            &&& g.len() == a.block_encoded()
            &&& 2 <= d <= g.len()
            &&& data_len(a, g) == d
            &&& d < g.len() <==> blk.len() < a.block_raw()
            &&& byte_count(a, d) == blk.len()
            &&& forall|j: int| d <= j < g.len() ==> g[j] == PAD
            &&& forall|j: int| 0 <= j < d ==> a.is_symbol(#[trigger] g[j])
            &&& forall|j: int|
                0 <= j < g.len() ==> #[trigger] value_at(a, g, d, j) == if j < d {
                    group_value(a, blk, j)
                } else {
                    0
                }
        }),
{
    let g = encode_block(a, blk);
    let d = data_symbols(a, blk.len() as int);
    assert forall|j: int| 0 <= j < d implies g[j] != PAD && a.is_symbol(#[trigger] g[j])
        && a.inverse(g[j]) == group_value(a, blk, j) by {
        let v = group_value(a, blk, j);
        assert(0 <= v < a.radix());
        lemma_symbols_are_visible(a, v);
        lemma_inverse_of_forward(a, v);
    }
    if a != Alphabet::Hex {
        lemma_first_pad(g, 0, d);
    }
}

/// Decoding the group of a block gives the block back; the group ends the
/// message exactly when the block is short.
#[verifier::rlimit(30)]
pub proof fn lemma_block_round_trip(a: Alphabet, blk: Seq<u8>)
    requires
        1 <= blk.len() <= a.block_raw(),
    ensures
        decode_group(a, encode_block(a, blk)) == Ok::<(Seq<u8>, bool), CodecError>(
            (blk, blk.len() < a.block_raw()),
        ),
{
    reveal(decode_group);
    let g = encode_block(a, blk);
    let d = data_symbols(a, blk.len() as int);
    lemma_block_shape(a, blk);
    let n = block_number(a, blk);
    match a {
        Alphabet::Hex => {
            assert(group_number(a, g, d) == n);
        },
        Alphabet::Base32Std | Alphabet::Base32Hex => {
            lemma_bytes40(
                byte_at(blk, 0) as u8,
                byte_at(blk, 1) as u8,
                byte_at(blk, 2) as u8,
                byte_at(blk, 3) as u8,
                byte_at(blk, 4) as u8,
                n as u64,
            );
            lemma_digits40(n as u64);
            assert(value_at(a, g, d, 0) == group_value(a, blk, 0));
            assert(value_at(a, g, d, 1) == group_value(a, blk, 1));
            assert(value_at(a, g, d, 2) == group_value(a, blk, 2));
            assert(value_at(a, g, d, 3) == group_value(a, blk, 3));
            assert(value_at(a, g, d, 4) == group_value(a, blk, 4));
            assert(value_at(a, g, d, 5) == group_value(a, blk, 5));
            assert(value_at(a, g, d, 6) == group_value(a, blk, 6));
            assert(value_at(a, g, d, 7) == group_value(a, blk, 7));
            assert(group_number(a, g, d) == n);
        },
        Alphabet::Base64Std | Alphabet::Base64Url => {
            lemma_bytes24(
                byte_at(blk, 0) as u8,
                byte_at(blk, 1) as u8,
                byte_at(blk, 2) as u8,
                n as u32,
            );
            lemma_digits24(n as u32);
            assert(value_at(a, g, d, 0) == group_value(a, blk, 0));
            assert(value_at(a, g, d, 1) == group_value(a, blk, 1));
            assert(value_at(a, g, d, 2) == group_value(a, blk, 2));
            assert(value_at(a, g, d, 3) == group_value(a, blk, 3));
            assert(group_number(a, g, d) == n);
        },
    }
    assert(unpack(a, g, d) =~= blk);
}

/// Decoding the symbols of an encoding gives the input back; the message
/// is ended by a padded group exactly when the input does not fill whole
/// blocks.
#[verifier::rlimit(30)]
pub proof fn lemma_symbols_round_trip(a: Alphabet, s: Seq<u8>)
    ensures
        decode_groups(a, encoded(a, s)) == Ok::<(Seq<u8>, bool), CodecError>(
            (s, whole_blocks(a, s.len() as int) != s.len()),
        ),
        decode_symbols(a, encoded(a, s)) == decode_groups(a, encoded(a, s)),
    decreases s.len(),
{
    if s.len() == 0 {
        assert(s =~= Seq::<u8>::empty());
    } else {
        let r = last_block_len(a, s.len() as int);
        lemma_block_lengths(a, s.len() as int);
        let head = s.take(s.len() - r);
        let blk = s.skip(s.len() - r);
        let w = encoded(a, head);
        let g = encode_block(a, blk);
        assert(encoded(a, s) == w + g);
        lemma_symbols_round_trip(a, head);
        assert(decode_groups(a, w) == Ok::<(Seq<u8>, bool), CodecError>((head, false)));
        lemma_encoded_len(a, head);
        lemma_block_round_trip(a, blk);
        assert(g.len() == a.block_encoded());
        lemma_decode_step(a, w, g);
        assert(head + blk =~= s);
        assert(decode_groups(a, w + g) == Ok::<(Seq<u8>, bool), CodecError>(
            (head + blk, blk.len() < a.block_raw()),
        ));
        assert(!trails(a, w + g)) by {
            lemma_group_lengths(a, w.len() as int, g.len() as int);
            assert((w + g).take((w + g).len() - g.len()) =~= w);
        }
    }
}

/// Round trip: for every alphabet and every sequence of bytes, decoding
/// the encoding gives the bytes back.
pub proof fn lemma_round_trip(a: Alphabet, s: Seq<u8>)
    ensures
        decoded(a, encoded(a, s)) == Ok::<Seq<u8>, CodecError>(s),
{
    let e = encoded(a, s);
    assert forall|i: int| 0 <= i < e.len() implies !is_whitespace(#[trigger] e[i]) by {
        lemma_encoded_symbols(a, s, i);
    }
    lemma_kept_all(a, 0, e);
    lemma_symbols_round_trip(a, s);
}

/// Padding in the first or second place of a group is `InvalidPadding`.
///
/// The group is the one that starts at visible symbol `k`; the groups
/// before it must have decoded and hold no padding, since the first
/// failure decides. This holds for both Base64 and both Base32 alphabets.
pub proof fn lemma_early_padding(a: Alphabet, s: Seq<u8>, k: int)
    requires
        a != Alphabet::Hex,
        0 <= k,
        whole_groups(a, k) == k,
        k + a.block_encoded() <= visible(a, s).len(),
        decode_groups(a, visible(a, s).take(k)) is Ok,
        !decode_groups(a, visible(a, s).take(k))->Ok_0.1,
        visible(a, s)[k] == PAD || visible(a, s)[k + 1] == PAD,
    ensures
        decoded(a, s) == Err::<Seq<u8>, CodecError>(CodecError::InvalidPadding),
{
    let v = visible(a, s);
    let n = a.block_encoded();
    let w = v.take(k);
    let g = v.subrange(k, k + n);
    assert(decode_group(a, g) == Err::<(Seq<u8>, bool), CodecError>(
        CodecError::InvalidPadding,
    )) by {
        reveal(decode_group);
        if g[0] != PAD {
            assert(first_pad(g, 1) == 1);
        }
    }
    lemma_decode_step(a, w, g);
    assert(w + g =~= v.take(k + n));
    lemma_group_lengths(a, k, n);
    lemma_decode_settled(a, v.take(k + n), v.skip(k + n));
    assert(v.take(k + n) + v.skip(k + n) =~= v);
}

/// An odd number of visible hex digits is `TruncatedInput`.
pub proof fn lemma_odd_hex(s: Seq<u8>)
    requires
        visible(Alphabet::Hex, s).len() % 2 == 1,
        forall|j: int| 0 <= j < visible(Alphabet::Hex, s).len() ==> Alphabet::Hex.is_symbol(#[trigger] visible(Alphabet::Hex, s)[j]),
    ensures
        decoded(Alphabet::Hex, s) == Err::<Seq<u8>, CodecError>(CodecError::TruncatedInput),
{
    let v = visible(Alphabet::Hex, s);
    let w = v.take(v.len() - 1);
    let x = v.skip(v.len() - 1);
    assert forall|j: int| 0 <= j < w.len() implies Alphabet::Hex.is_symbol(#[trigger] w[j]) by {
        assert(w[j] == v[j]);
    }
    lemma_data_groups(Alphabet::Hex, w);
    lemma_decode_truncated(Alphabet::Hex, w, x);
    assert(w + x =~= v);
}

/// A group decodes to no more bytes than a block holds.
proof fn lemma_group_bound(a: Alphabet, g: Seq<u8>)
    requires
        g.len() == a.block_encoded(),
        decode_group(a, g) is Ok,
    ensures
        1 <= decode_group(a, g)->Ok_0.0.len() <= a.block_raw(),
{
    reveal(decode_group);
    if a != Alphabet::Hex {
        lemma_first_pad_bound(g, 0);
    }
}

/// The first padding symbol at or after `i` lies within the group or at
/// its end.
proof fn lemma_first_pad_bound(g: Seq<u8>, i: int)
    requires
        0 <= i <= g.len(),
    ensures
        i <= first_pad(g, i) <= g.len(),
    decreases g.len() - i,
{
    if i < g.len() && g[i] != PAD {
        lemma_first_pad_bound(g, i + 1);
    }
}

/// Symbols decode to no more than a block of bytes for each whole group.
proof fn lemma_symbols_bound(a: Alphabet, v: Seq<u8>)
    requires
        decode_groups(a, v) is Ok,
    ensures
        decode_groups(a, v)->Ok_0.0.len() <= decoded_len(a, v.len() as int),
    decreases v.len(),
{
    if v.len() > 0 {
        let r = last_group_len(a, v.len() as int);
        lemma_group_lengths(a, 0, v.len() as int);
        let w = v.take(v.len() - r);
        lemma_symbols_bound(a, w);
        lemma_length_bounds(a, w.len() as int, v.len() as int);
        if !decode_groups(a, w)->Ok_0.1 {
            lemma_group_bound(a, v.skip(v.len() - a.block_encoded()));
        }
    }
}

/// The bound grows with the input, by a block for every whole group.
#[verifier::rlimit(40)]
proof fn lemma_length_bounds(a: Alphabet, m: int, n: int)
    requires
        0 <= m <= n,
    ensures
        0 <= decoded_len(a, m) <= decoded_len(a, n),
        whole_groups(a, m) == m && m + a.block_encoded() == n ==> decoded_len(a, m)
            + a.block_raw() == decoded_len(a, n),
{
}

/// The decoded bytes are no more than the bound that `decoded_len` gives
/// for the length of the input: a block for every group that the input
/// could hold. Whitespace only makes them fewer.
pub proof fn lemma_decoded_bound(a: Alphabet, s: Seq<u8>)
    requires
        decoded(a, s) is Ok,
    ensures
        decoded(a, s)->Ok_0.len() <= decoded_len(a, s.len() as int),
{
    lemma_kept_len(a, 0, s);
    lemma_symbols_bound(a, visible(a, s));
    lemma_length_bounds(a, visible(a, s).len() as int, s.len() as int);
}

/// A group of symbols of the alphabet decodes, and does not end the
/// message.
proof fn lemma_data_group(a: Alphabet, g: Seq<u8>)
    requires
        g.len() == a.block_encoded(),
        forall|j: int| 0 <= j < g.len() ==> a.is_symbol(#[trigger] g[j]),
    ensures
        decode_group(a, g) is Ok,
        !decode_group(a, g)->Ok_0.1,
{
    reveal(decode_group);
    assert(!a.is_symbol(PAD));
    if a != Alphabet::Hex {
        lemma_first_pad(g, 0, g.len() as int);
    }
}

/// Whole groups of symbols of the alphabet decode, and do not end the
/// message.
proof fn lemma_data_groups(a: Alphabet, v: Seq<u8>)
    requires
        whole_groups(a, v.len() as int) == v.len(),
        forall|j: int| 0 <= j < v.len() ==> a.is_symbol(#[trigger] v[j]),
    ensures
        decode_groups(a, v) is Ok,
        !ended(decode_groups(a, v)),
    decreases v.len(),
{
    if v.len() > 0 {
        let n = a.block_encoded();
        lemma_group_lengths(a, 0, v.len() as int);
        let w = v.take(v.len() - n);
        let g = v.skip(v.len() - n);
        lemma_data_groups(a, w);
        lemma_data_group(a, g);
        lemma_decode_step(a, w, g);
        assert(w + g =~= v);
    }
}

/// A group that decodes holds symbols of the alphabet up to its padding,
/// and padding from there on; it ends the message exactly when it holds
/// padding, which starts behind the second symbol at the earliest.
proof fn lemma_group_shape(a: Alphabet, g: Seq<u8>)
    requires
        g.len() == a.block_encoded(),
        decode_group(a, g) is Ok,
    ensures
        2 <= data_len(a, g) <= g.len(),
        decode_group(a, g)->Ok_0.1 == (data_len(a, g) < g.len()),
        decode_group(a, g)->Ok_0.0.len() == byte_count(a, data_len(a, g)),
        forall|j: int| 0 <= j < data_len(a, g) ==> a.is_symbol(#[trigger] g[j]),
        forall|j: int| data_len(a, g) <= j < g.len() ==> #[trigger] g[j] == PAD,
{
    reveal(decode_group);
    if a != Alphabet::Hex {
        lemma_first_pad_bound(g, 0);
    }
}

/// Symbols that decode without a padded group are whole groups of
/// symbols of the alphabet.
proof fn lemma_open_groups(a: Alphabet, v: Seq<u8>)
    requires
        decode_groups(a, v) is Ok,
        !ended(decode_groups(a, v)),
    ensures
        whole_groups(a, v.len() as int) == v.len(),
        forall|j: int| 0 <= j < v.len() ==> a.is_symbol(#[trigger] v[j]),
    decreases v.len(),
{
    if v.len() > 0 {
        let n = a.block_encoded();
        lemma_group_lengths(a, 0, v.len() as int);
        let w = v.take(v.len() - n);
        let g = v.skip(v.len() - n);
        lemma_open_groups(a, w);
        lemma_group_shape(a, g);
        lemma_group_sums(a, w.len() as int, n);
        assert forall|j: int| 0 <= j < v.len() implies a.is_symbol(#[trigger] v[j]) by {
            if j < w.len() {
                assert(v[j] == w[j]);
            } else {
                assert(v[j] == g[j - w.len()]);
            }
        }
    }
}

/// Whether the last `c` symbols of `v` are padding and all before them
/// are symbols of the alphabet, with `c` no more than a last group may
/// hold: all of a group but its first two symbols.
pub open spec fn padded_by(a: Alphabet, v: Seq<u8>, c: int) -> bool {
    &&& 0 <= c <= v.len()
    &&& c <= a.block_encoded() - 2
    &&& a == Alphabet::Hex ==> c == 0
    &&& forall|j: int| v.len() - c <= j < v.len() ==> #[trigger] v[j] == PAD
    &&& forall|j: int| 0 <= j < v.len() - c ==> a.is_symbol(#[trigger] v[j])
}

/// Whether visible symbols are well formed: they make whole groups, and
/// each is a symbol of the alphabet, but that the last group may end in
/// padding.
pub open spec fn well_formed(a: Alphabet, v: Seq<u8>) -> bool {
    &&& whole_groups(a, v.len() as int) == v.len()
    &&& exists|c: int| padded_by(a, v, c)
}

/// Well-formed symbols decode.
proof fn lemma_well_formed_decodes(a: Alphabet, v: Seq<u8>, c: int)
    requires
        whole_groups(a, v.len() as int) == v.len(),
        padded_by(a, v, c),
    ensures
        decode_symbols(a, v) is Ok,
        decode_symbols(a, v)->Ok_0.1 == (c > 0),
{
    if v.len() > 0 {
        let n = a.block_encoded();
        lemma_group_lengths(a, 0, v.len() as int);
        let w = v.take(v.len() - n);
        let g = v.skip(v.len() - n);
        assert forall|j: int| 0 <= j < w.len() implies a.is_symbol(#[trigger] w[j]) by {
            assert(w[j] == v[j]);
        }
        lemma_data_groups(a, w);
        assert(!a.is_symbol(PAD));
        assert(decode_group(a, g) is Ok && decode_group(a, g)->Ok_0.1 == (c > 0)) by {
            reveal(decode_group);
            assert forall|j: int| 0 <= j < n - c implies a.is_symbol(#[trigger] g[j]) && g[j]
                != PAD by {
                assert(g[j] == v[v.len() - n + j]);
            }
            assert forall|j: int| n - c <= j < n implies #[trigger] g[j] == PAD by {
                assert(g[j] == v[v.len() - n + j]);
            }
            if a != Alphabet::Hex {
                lemma_first_pad(g, 0, n - c);
            }
        }
        lemma_decode_step(a, w, g);
        assert(w + g =~= v);
        assert(v.take(v.len() - n) =~= w);
    }
}

/// Symbols that decode are well formed.
proof fn lemma_decodes_well_formed(a: Alphabet, v: Seq<u8>)
    requires
        decode_symbols(a, v) is Ok,
    ensures
        well_formed(a, v),
        decode_symbols(a, v)->Ok_0.1 == (v.len() > 0 && v.last() == PAD),
{
    assert(!a.is_symbol(PAD));
    if v.len() == 0 {
        assert(padded_by(a, v, 0));
    } else {
        let n = a.block_encoded();
        lemma_group_lengths(a, 0, v.len() as int);
        let r = last_group_len(a, v.len() as int);
        let w = v.take(v.len() - r);
        assert(decode_groups(a, w) is Ok && !ended(decode_groups(a, w)));
        assert(r == n);
        let g = v.skip(v.len() - n);
        lemma_open_groups(a, w);
        lemma_group_shape(a, g);
        lemma_group_sums(a, w.len() as int, n);
        let c = n - data_len(a, g);
        assert forall|j: int| v.len() - c <= j < v.len() implies #[trigger] v[j] == PAD by {
            assert(v[j] == g[j - w.len()]);
        }
        assert forall|j: int| 0 <= j < v.len() - c implies a.is_symbol(#[trigger] v[j]) by {
            if j < w.len() {
                assert(v[j] == w[j]);
            } else {
                assert(v[j] == g[j - w.len()]);
            }
        }
        assert(padded_by(a, v, c));
        assert(v.last() == g[n - 1]);
    }
}

/// Which inputs decode: exactly those whose visible symbols are well
/// formed. So decoding fails exactly when the visible symbols make no whole
/// groups or one of them is no symbol of the alphabet, but for padding at
/// the very end: up to two `=` for Base64, up to six for Base32, none for
/// hex. Where it succeeds, the message is ended by padding exactly when
/// the last visible symbol is `=`.
pub proof fn lemma_decodes_iff_well_formed(a: Alphabet, s: Seq<u8>)
    ensures
        decoded(a, s) is Ok <==> well_formed(a, visible(a, s)),
        decode_pass(a, s) is Ok ==> decode_pass(a, s)->Ok_0.1 == (visible(a, s).len() > 0
            && visible(a, s).last() == PAD),
{
    let v = visible(a, s);
    if decode_symbols(a, v) is Ok {
        lemma_decodes_well_formed(a, v);
    }
    if well_formed(a, v) {
        let c = choose|c: int| padded_by(a, v, c);
        lemma_well_formed_decodes(a, v, c);
    }
}

/// Symbols behind a padded group make the input fail: it is truncated
/// where the visible symbols make no whole groups, and else holds padding
/// outside its last group.
///
/// The padded group is the one that ends at visible symbol `k`.
pub proof fn lemma_symbols_behind_padding(a: Alphabet, s: Seq<u8>, k: int)
    requires
        0 <= k < visible(a, s).len(),
        whole_groups(a, k) == k,
        ended(decode_groups(a, visible(a, s).take(k))),
    ensures
        decoded(a, s) == Err::<Seq<u8>, CodecError>(misplaced(a, visible(a, s).len() as int)),
        misplaced(a, visible(a, s).len() as int) == if whole_groups(a, visible(a, s).len() as int)
            == visible(a, s).len() {
            CodecError::InvalidPadding
        } else {
            CodecError::TruncatedInput
        },
{
    let v = visible(a, s);
    assert(v =~= v.take(k) + v.skip(k));
    lemma_trails(a, v.take(k), v.skip(k));
}

/// Groups without padding decode to a whole block each.
proof fn lemma_open_count(a: Alphabet, v: Seq<u8>)
    requires
        decode_groups(a, v) is Ok,
        !ended(decode_groups(a, v)),
    ensures
        decode_groups(a, v)->Ok_0.0.len() == decoded_len(a, v.len() as int),
    decreases v.len(),
{
    if v.len() > 0 {
        let n = a.block_encoded();
        lemma_group_lengths(a, 0, v.len() as int);
        let w = v.take(v.len() - n);
        let g = v.skip(v.len() - n);
        lemma_open_groups(a, w);
        lemma_open_count(a, w);
        lemma_group_shape(a, g);
        lemma_length_bounds(a, w.len() as int, v.len() as int);
    }
}

/// How many bytes come out: a block for every group, but that a last
/// group with padding gives what its data symbols hold. For Base64 that is
/// three bytes for every four visible symbols, less one for each `=`.
pub proof fn lemma_decoded_count(a: Alphabet, s: Seq<u8>, c: int)
    requires
        whole_groups(a, visible(a, s).len() as int) == visible(a, s).len(),
        padded_by(a, visible(a, s), c),
    ensures
        decoded(a, s) is Ok,
        decoded(a, s)->Ok_0.len() == if c == 0 {
            decoded_len(a, visible(a, s).len() as int)
        } else {
            decoded_len(a, visible(a, s).len() as int) - a.block_raw() + byte_count(
                a,
                a.block_encoded() - c,
            )
        },
        a == Alphabet::Base64Std || a == Alphabet::Base64Url ==> decoded(a, s)->Ok_0.len()
            == visible(a, s).len() / 4 * 3 - c,
{
    let v = visible(a, s);
    lemma_well_formed_decodes(a, v, c);
    lemma_decodes_well_formed(a, v);
    assert(!a.is_symbol(PAD));
    if v.len() > 0 {
        let n = a.block_encoded();
        lemma_group_lengths(a, 0, v.len() as int);
        let w = v.take(v.len() - n);
        let g = v.skip(v.len() - n);
        assert(decode_groups(a, w) is Ok && !ended(decode_groups(a, w)));
        lemma_open_count(a, w);
        lemma_open_groups(a, w);
        lemma_group_shape(a, g);
        lemma_length_bounds(a, w.len() as int, v.len() as int);
        assert(data_len(a, g) == n - c) by {
            if data_len(a, g) < n - c {
                assert(g[data_len(a, g)] == v[w.len() + data_len(a, g)]);
            } else if data_len(a, g) > n - c {
                assert(g[n - c] == v[w.len() + n - c]);
            }
        }
    }
}

} // verus!

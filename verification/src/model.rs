//! What encoding and decoding mean, as functions on sequences of bytes.
//!
//! A block of raw bytes is read as one big-endian number; its symbols are
//! the digits of that number in base 16, 32 or 64. Decoding drops
//! whitespace, then reads the remaining symbols group by group; a group
//! with padding must be the last one.

use vstd::prelude::*;
use crate::alphabet::{is_whitespace, Alphabet, PAD};
use crate::error::CodecError;

verus! {

/// Whether whitespace is dropped where `n` symbols were read before it.
/// Base32 and Base64 drop it wherever it stands. Hex drops it between
/// pairs only: behind the first digit of a pair it is read as the second
/// symbol of that pair, which then is no digit.
pub open spec fn drops(a: Alphabet, n: int) -> bool {
    a != Alphabet::Hex || n % 2 == 0
}

/// The bytes of `s` that are read as symbols, in order, where `n` symbols
/// were read before `s`: all but the whitespace that is dropped.
pub open spec fn kept(a: Alphabet, n: int, s: Seq<u8>) -> Seq<u8>
    decreases s.len(),
{
    if s.len() == 0 {
        Seq::empty()
    } else {
        let v = kept(a, n, s.drop_last());
        if is_whitespace(s.last()) && drops(a, n + v.len()) {
            v
        } else {
            v.push(s.last())
        }
    }
}

/// The visible symbols of an input: what is left of it once the whitespace
/// that the alphabet drops is gone.
pub open spec fn visible(a: Alphabet, s: Seq<u8>) -> Seq<u8> {
    kept(a, 0, s)
}

/// Byte `i` of a block, or zero past its end.
pub open spec fn byte_at(blk: Seq<u8>, i: int) -> int {
    if 0 <= i < blk.len() {
        blk[i] as int
    } else {
        0
    }
}

/// The block as a big-endian number, missing bytes counted as zero.
pub open spec fn block_number(a: Alphabet, blk: Seq<u8>) -> int {
    let b0 = byte_at(blk, 0);
    let b1 = byte_at(blk, 1);
    let b2 = byte_at(blk, 2);
    let b3 = byte_at(blk, 3);
    let b4 = byte_at(blk, 4);
    match a {
        Alphabet::Hex => b0,
        Alphabet::Base32Std | Alphabet::Base32Hex => b0 * 0x1_0000_0000 + b1 * 0x100_0000 + b2
            * 0x1_0000 + b3 * 0x100 + b4,
        Alphabet::Base64Std | Alphabet::Base64Url => b0 * 0x1_0000 + b1 * 0x100 + b2,
    }
}

/// The weight of symbol `j` of a group: the power of two by which its value
/// is multiplied in the block's number.
pub open spec fn weight(a: Alphabet, j: int) -> int {
    match a {
        Alphabet::Hex => if j == 0 {
            0x10
        } else {
            1
        },
        Alphabet::Base32Std | Alphabet::Base32Hex => if j == 0 {
            0x8_0000_0000
        } else if j == 1 {
            0x4000_0000
        } else if j == 2 {
            0x200_0000
        } else if j == 3 {
            0x10_0000
        } else if j == 4 {
            0x8000
        } else if j == 5 {
            0x400
        } else if j == 6 {
            0x20
        } else {
            1
        },
        Alphabet::Base64Std | Alphabet::Base64Url => if j == 0 {
            0x4_0000
        } else if j == 1 {
            0x1000
        } else if j == 2 {
            0x40
        } else {
            1
        },
    }
}

/// The weight of byte `i` of a block in the block's number.
pub open spec fn byte_weight(a: Alphabet, i: int) -> int {
    match a {
        Alphabet::Hex => 1,
        Alphabet::Base32Std | Alphabet::Base32Hex => if i == 0 {
            0x1_0000_0000
        } else if i == 1 {
            0x100_0000
        } else if i == 2 {
            0x1_0000
        } else if i == 3 {
            0x100
        } else {
            1
        },
        Alphabet::Base64Std | Alphabet::Base64Url => if i == 0 {
            0x1_0000
        } else if i == 1 {
            0x100
        } else {
            1
        },
    }
}

/// Group value `j` of a block: digit `j` of its number.
pub open spec fn group_value(a: Alphabet, blk: Seq<u8>, j: int) -> int {
    (block_number(a, blk) / weight(a, j)) % a.radix()
}

/// How many symbols of a group carry data when the block holds `r` raw
/// bytes; the rest of the group is padding.
pub open spec fn data_symbols(a: Alphabet, r: int) -> int {
    match a {
        Alphabet::Hex => 2,
        Alphabet::Base32Std | Alphabet::Base32Hex => if r == 1 {
            2
        } else if r == 2 {
            4
        } else if r == 3 {
            5
        } else if r == 4 {
            7
        } else {
            8
        },
        Alphabet::Base64Std | Alphabet::Base64Url => if r == 1 {
            2
        } else if r == 2 {
            3
        } else {
            4
        },
    }
}

/// The group of symbols for one block of one to `block_raw` bytes.
pub open spec fn encode_block(a: Alphabet, blk: Seq<u8>) -> Seq<u8> {
    Seq::new(
        a.block_encoded() as nat,
        |j: int|
            if j < data_symbols(a, blk.len() as int) {
                a.forward(group_value(a, blk, j))
            } else {
                PAD
            },
    )
}

/// Length of the last block of an input of `n > 0` bytes.
pub open spec fn last_block_len(a: Alphabet, n: int) -> int {
    match a {
        Alphabet::Hex => 1,
        Alphabet::Base32Std | Alphabet::Base32Hex => if n % 5 == 0 {
            5
        } else {
            n % 5
        },
        Alphabet::Base64Std | Alphabet::Base64Url => if n % 3 == 0 {
            3
        } else {
            n % 3
        },
    }
}

/// The encoding of `s`: the groups of its blocks, one after the other; only
/// the last block may be short.
pub open spec fn encoded(a: Alphabet, s: Seq<u8>) -> Seq<u8>
    decreases s.len(),
{
    if s.len() == 0 {
        Seq::empty()
    } else {
        let r = last_block_len(a, s.len() as int);
        encoded(a, s.take(s.len() - r)) + encode_block(a, s.skip(s.len() - r))
    }
}

/// Length of the encoding of `n` raw bytes.
pub open spec fn encoded_len(a: Alphabet, n: int) -> int {
    match a {
        Alphabet::Hex => n * 2,
        Alphabet::Base32Std | Alphabet::Base32Hex => (n + 4) / 5 * 8,
        Alphabet::Base64Std | Alphabet::Base64Url => (n + 2) / 3 * 4,
    }
}

/// The most raw bytes that `n` input bytes can decode to.
pub open spec fn decoded_len(a: Alphabet, n: int) -> int {
    match a {
        Alphabet::Hex => n / 2,
        Alphabet::Base32Std | Alphabet::Base32Hex => n / 8 * 5,
        Alphabet::Base64Std | Alphabet::Base64Url => n / 4 * 3,
    }
}

/// Index of the first padding symbol of `g` at or after `i`, or the length
/// of `g` when there is none.
pub open spec fn first_pad(g: Seq<u8>, i: int) -> int
    decreases g.len() - i,
{
    if i < 0 || i >= g.len() || g[i] == PAD {
        i
    } else {
        first_pad(g, i + 1)
    }
}

/// How many leading symbols of a group are data. Hex has no padding, so the
/// whole group is data.
pub open spec fn data_len(a: Alphabet, g: Seq<u8>) -> int {
    if a == Alphabet::Hex {
        g.len() as int
    } else {
        first_pad(g, 0)
    }
}

/// Group value of symbol `j` when the first `n` symbols are data; padding
/// counts as zero.
pub open spec fn value_at(a: Alphabet, g: Seq<u8>, n: int, j: int) -> int {
    if 0 <= j < n && j < g.len() {
        a.inverse(g[j]) as int
    } else {
        0
    }
}

/// The number that a group stands for: its group values, each with the
/// weight of its place.
pub open spec fn group_number(a: Alphabet, g: Seq<u8>, n: int) -> int {
    let v0 = value_at(a, g, n, 0) * weight(a, 0);
    let v1 = value_at(a, g, n, 1) * weight(a, 1);
    let v2 = value_at(a, g, n, 2) * weight(a, 2);
    let v3 = value_at(a, g, n, 3) * weight(a, 3);
    let v4 = value_at(a, g, n, 4) * weight(a, 4);
    let v5 = value_at(a, g, n, 5) * weight(a, 5);
    let v6 = value_at(a, g, n, 6) * weight(a, 6);
    let v7 = value_at(a, g, n, 7) * weight(a, 7);
    match a {
        Alphabet::Hex => v0 + v1,
        Alphabet::Base32Std | Alphabet::Base32Hex => v0 + v1 + v2 + v3 + v4 + v5 + v6 + v7,
        Alphabet::Base64Std | Alphabet::Base64Url => v0 + v1 + v2 + v3,
    }
}

/// How many raw bytes a group with `n` data symbols decodes to.
pub open spec fn byte_count(a: Alphabet, n: int) -> int {
    match a {
        Alphabet::Hex => 1,
        Alphabet::Base32Std | Alphabet::Base32Hex => if n <= 2 {
            1
        } else if n <= 4 {
            2
        } else if n == 5 {
            3
        } else if n <= 7 {
            4
        } else {
            5
        },
        Alphabet::Base64Std | Alphabet::Base64Url => n - 1,
    }
}

/// The raw bytes of a group whose first `n` symbols are data.
pub open spec fn unpack(a: Alphabet, g: Seq<u8>, n: int) -> Seq<u8> {
    Seq::new(
        byte_count(a, n) as nat,
        |i: int| ((group_number(a, g, n) / byte_weight(a, i)) % 256) as u8,
    )
}

/// Decoding one group of `block_encoded` symbols: the bytes it holds and
/// whether it ends the message, that is whether it is padded.
///
/// The shape of the padding is looked at first: padding that starts before
/// the third symbol, or that is followed by anything else in the group, is
/// `InvalidPadding`. Then every data symbol must belong to the alphabet.
#[verifier::opaque]
pub open spec fn decode_group(a: Alphabet, g: Seq<u8>) -> Result<(Seq<u8>, bool), CodecError> {
    let n = data_len(a, g);
    if n < 2 {
        Err(CodecError::InvalidPadding)
    } else if exists|j: int| n <= j < g.len() && g[j] != PAD {
        Err(CodecError::InvalidPadding)
    } else if exists|j: int| 0 <= j < n && !a.is_symbol(#[trigger] g[j]) {
        Err(CodecError::InvalidSymbol)
    } else {
        Ok((unpack(a, g, n), n < g.len()))
    }
}

/// The largest number of symbols up to `n` that makes whole groups.
pub open spec fn whole_groups(a: Alphabet, n: int) -> int {
    match a {
        Alphabet::Hex => n - n % 2,
        Alphabet::Base32Std | Alphabet::Base32Hex => n - n % 8,
        Alphabet::Base64Std | Alphabet::Base64Url => n - n % 4,
    }
}

/// The largest number of raw bytes up to `n` that makes whole blocks.
pub open spec fn whole_blocks(a: Alphabet, n: int) -> int {
    match a {
        Alphabet::Hex => n,
        Alphabet::Base32Std | Alphabet::Base32Hex => n - n % 5,
        Alphabet::Base64Std | Alphabet::Base64Url => n - n % 3,
    }
}

/// Number of symbols in the last group of `n > 0` symbols; fewer than
/// `block_encoded` when the symbols end inside a group.
pub open spec fn last_group_len(a: Alphabet, n: int) -> int {
    match a {
        Alphabet::Hex => if n % 2 == 0 {
            2
        } else {
            1
        },
        Alphabet::Base32Std | Alphabet::Base32Hex => if n % 8 == 0 {
            8
        } else {
            n % 8
        },
        Alphabet::Base64Std | Alphabet::Base64Url => if n % 4 == 0 {
            4
        } else {
            n % 4
        },
    }
}

/// Reading the groups of a sequence of visible symbols, in order, up to
/// the first padded one: the bytes of those groups, and whether a padded
/// group was met.
///
/// The first group that fails gives the error; nothing is read behind a
/// padded group; symbols that do not fill a last group, where no padded
/// group was met, are `TruncatedInput`.
pub open spec fn decode_groups(a: Alphabet, v: Seq<u8>) -> Result<(Seq<u8>, bool), CodecError>
    decreases v.len(),
{
    if v.len() == 0 {
        Ok((Seq::empty(), false))
    } else {
        let g = a.block_encoded();
        let r = last_group_len(a, v.len() as int);
        match decode_groups(a, v.take(v.len() - r)) {
            Err(e) => Err(e),
            Ok((bytes, true)) => Ok((bytes, true)),
            Ok((bytes, false)) => if r < g {
                Err(CodecError::TruncatedInput)
            } else {
                match decode_group(a, v.skip(v.len() - g)) {
                    Err(e) => Err(e),
                    Ok((more, end)) => Ok((bytes + more, end)),
                }
            },
        }
    }
}

/// Whether `r` tells that a padded group was met.
pub open spec fn ended(r: Result<(Seq<u8>, bool), CodecError>) -> bool {
    r is Ok && r->Ok_0.1
}

/// Whether symbols stand behind a padded group: the groups before the last
/// one already hold a padded group.
pub open spec fn trails(a: Alphabet, v: Seq<u8>) -> bool {
    v.len() > 0 && ended(decode_groups(a, v.take(v.len() - last_group_len(a, v.len() as int))))
}

/// The error for `n` symbols, of which some stand behind a padded group:
/// the input is truncated where the symbols make no whole groups, and
/// else holds padding outside its last group.
pub open spec fn misplaced(a: Alphabet, n: int) -> CodecError {
    if whole_groups(a, n) == n {
        CodecError::InvalidPadding
    } else {
        CodecError::TruncatedInput
    }
}

/// Decoding a sequence of visible symbols: the bytes of its groups, and
/// whether the last group is padded.
///
/// Groups are read in order and the first group that fails gives the
/// error. A padded group must be the last group: symbols behind it are an
/// error, see [`misplaced`]. Symbols that do not fill a last group are
/// `TruncatedInput`.
pub open spec fn decode_symbols(a: Alphabet, v: Seq<u8>) -> Result<(Seq<u8>, bool), CodecError> {
    if trails(a, v) {
        Err(misplaced(a, v.len() as int))
    } else {
        decode_groups(a, v)
    }
}

/// One decoding pass over `s`: whitespace is dropped, see [`drops`], then
/// the symbols are decoded.
pub open spec fn decode_pass(a: Alphabet, s: Seq<u8>) -> Result<(Seq<u8>, bool), CodecError> {
    decode_symbols(a, visible(a, s))
}

/// The raw bytes that `s` decodes to, or the reason why it does not decode.
pub open spec fn decoded(a: Alphabet, s: Seq<u8>) -> Result<Seq<u8>, CodecError> {
    match decode_pass(a, s) {
        Ok((bytes, _)) => Ok(bytes),
        Err(e) => Err(e),
    }
}

/// Encoding a prefix that ends with one more block appends that block's
/// group to the encoding of the prefix before it.
pub proof fn lemma_encoded_step(a: Alphabet, s: Seq<u8>, i: int, r: int)
    requires
        0 <= i,
        whole_blocks(a, i) == i,
        1 <= r <= a.block_raw(),
        i + r <= s.len(),
    ensures
        encoded(a, s.take(i + r)) == encoded(a, s.take(i)) + encode_block(a, s.subrange(i, i + r)),
{
    let t = s.take(i + r);
    assert(last_block_len(a, t.len() as int) == r);
    assert(t.take(t.len() - r) =~= s.take(i));
    assert(t.skip(t.len() - r) =~= s.subrange(i, i + r));
}

/// Reading a concatenation is reading its first part, then its second
/// part with the symbols of the first read before it.
pub proof fn lemma_kept_concat(a: Alphabet, n: int, s: Seq<u8>, t: Seq<u8>)
    ensures
        kept(a, n, s + t) == kept(a, n, s) + kept(a, n + kept(a, n, s).len(), t),
    decreases t.len(),
{
    let m = n + kept(a, n, s).len();
    if t.len() == 0 {
        assert(s + t =~= s);
        assert(kept(a, n, s) + kept(a, m, t) =~= kept(a, n, s));
    } else {
        lemma_kept_concat(a, n, s, t.drop_last());
        assert((s + t).drop_last() =~= s + t.drop_last());
        assert((s + t).last() == t.last());
        let before = kept(a, m, t.drop_last());
        assert(kept(a, n, (s + t).drop_last()).len() == kept(a, n, s).len() + before.len());
        if is_whitespace(t.last()) && drops(a, m + before.len()) {
        } else {
            assert(kept(a, n, s + t) =~= kept(a, n, s) + kept(a, m, t));
        }
    }
}

/// Reading one more byte: whitespace that is dropped changes nothing, any
/// other byte is appended to the symbols.
pub proof fn lemma_kept_step(a: Alphabet, n: int, s: Seq<u8>, i: int)
    requires
        0 <= i < s.len(),
    ensures
        kept(a, n, s.take(i + 1)) == if is_whitespace(s[i]) && drops(
            a,
            n + kept(a, n, s.take(i)).len(),
        ) {
            kept(a, n, s.take(i))
        } else {
            kept(a, n, s.take(i)).push(s[i])
        },
{
    assert(s.take(i + 1).drop_last() =~= s.take(i));
}

/// The symbols read are no more than the bytes they were taken from.
pub proof fn lemma_kept_len(a: Alphabet, n: int, s: Seq<u8>)
    ensures
        kept(a, n, s).len() <= s.len(),
    decreases s.len(),
{
    if s.len() > 0 {
        lemma_kept_len(a, n, s.drop_last());
    }
}

/// Bytes that hold no whitespace are all read as symbols.
pub proof fn lemma_kept_all(a: Alphabet, n: int, s: Seq<u8>)
    requires
        forall|i: int| 0 <= i < s.len() ==> !is_whitespace(#[trigger] s[i]),
    ensures
        kept(a, n, s) == s,
    decreases s.len(),
{
    if s.len() > 0 {
        lemma_kept_all(a, n, s.drop_last());
        assert(s.drop_last().push(s.last()) =~= s);
    }
}

/// What is read depends on the number of symbols read before only through
/// its being even or odd, and for Base32 and Base64 not at all.
pub proof fn lemma_kept_parity(a: Alphabet, n: int, m: int, s: Seq<u8>)
    requires
        a != Alphabet::Hex || n % 2 == m % 2,
    ensures
        kept(a, n, s) == kept(a, m, s),
    decreases s.len(),
{
    if s.len() > 0 {
        lemma_kept_parity(a, n, m, s.drop_last());
    }
}

/// Adding a multiple of `m` does not change the remainder.
proof fn lemma_rem(k: int, x: int, m: int)
    requires
        0 < m,
        k % m == 0,
    ensures
        (k + x) % m == x % m,
        (x - x % m) % m == 0,
        0 <= x % m < m,
{
    vstd::arithmetic::div_mod::lemma_add_mod_noop(k, x, m);
    vstd::arithmetic::div_mod::lemma_mod_twice(x, m);
    vstd::arithmetic::div_mod::lemma_sub_mod_noop(x, x % m, m);
    vstd::arithmetic::div_mod::lemma_mod_bound(x, m);
    vstd::arithmetic::div_mod::lemma_mod_self_0(m);
    vstd::arithmetic::div_mod::lemma_small_mod(0, m as nat);
}

/// How the length of the last group follows from the length of what was
/// read: after whole groups, `x` more symbols end in the same last group as
/// `x` symbols alone.
#[verifier::rlimit(40)]
pub proof fn lemma_group_lengths(a: Alphabet, k: int, x: int)
    requires
        0 <= k,
        whole_groups(a, k) == k,
        0 < x,
    ensures
        1 <= last_group_len(a, k + x) <= x,
        last_group_len(a, k + x) <= a.block_encoded(),
        x < a.block_encoded() ==> last_group_len(a, k + x) == x,
        x == a.block_encoded() ==> last_group_len(a, k + x) == x,
        whole_groups(a, k + x - last_group_len(a, k + x)) == k + x - last_group_len(a, k + x),
        k <= whole_groups(a, k + x) <= k + x,
        whole_groups(a, whole_groups(a, k + x)) == whole_groups(a, k + x),
        whole_groups(a, k + x) == k + x ==> last_group_len(a, k + x) == a.block_encoded(),
{
    match a {
        Alphabet::Hex => {
            lemma_rem(k, x, 2);
            lemma_rem(0, k + x, 2);
        },
        Alphabet::Base32Std | Alphabet::Base32Hex => {
            lemma_rem(k, x, 8);
            lemma_rem(0, k + x, 8);
        },
        Alphabet::Base64Std | Alphabet::Base64Url => {
            lemma_rem(k, x, 4);
            lemma_rem(0, k + x, 4);
        },
    }
}

/// How whole groups add up: whole groups followed by `x` symbols hold the
/// whole groups of both.
#[verifier::rlimit(40)]
pub proof fn lemma_group_sums(a: Alphabet, k: int, x: int)
    requires
        0 <= k,
        whole_groups(a, k) == k,
        0 <= x,
    ensures
        last_group_len(a, k + x) == last_group_len(a, x),
        whole_groups(a, k + x) == k + whole_groups(a, x),
        0 <= whole_groups(a, x) <= x,
        x - whole_groups(a, x) < a.block_encoded(),
        whole_groups(a, whole_groups(a, x)) == whole_groups(a, x),
{
    match a {
        Alphabet::Hex => {
            lemma_rem(k, x, 2);
        },
        Alphabet::Base32Std | Alphabet::Base32Hex => {
            lemma_rem(k, x, 8);
        },
        Alphabet::Base64Std | Alphabet::Base64Url => {
            lemma_rem(k, x, 4);
        },
    }
}

/// Decoding whole groups followed by one more group: the result of the
/// groups so far, then that of the new group.
#[verifier::rlimit(30)]
pub proof fn lemma_decode_step(a: Alphabet, w: Seq<u8>, g: Seq<u8>)
    requires
        whole_groups(a, w.len() as int) == w.len(),
        g.len() == a.block_encoded(),
    ensures
        decode_groups(a, w + g) == match decode_groups(a, w) {
            Err(e) => Err(e),
            Ok((bytes, true)) => Ok((bytes, true)),
            Ok((bytes, false)) => match decode_group(a, g) {
                Err(e) => Err(e),
                Ok((more, end)) => Ok((bytes + more, end)),
            },
        },
{
    let v = w + g;
    lemma_group_lengths(a, w.len() as int, g.len() as int);
    assert(v.take(v.len() - a.block_encoded()) =~= w);
    assert(v.skip(v.len() - a.block_encoded()) =~= g);
}

/// Once whole groups have failed or ended the message, nothing that follows
/// changes the result.
#[verifier::rlimit(30)]
pub proof fn lemma_decode_settled(a: Alphabet, w: Seq<u8>, x: Seq<u8>)
    requires
        whole_groups(a, w.len() as int) == w.len(),
        decode_groups(a, w) is Err || decode_groups(a, w)->Ok_0.1,
    ensures
        decode_groups(a, w + x) == decode_groups(a, w),
    decreases x.len(),
{
    if x.len() == 0 {
        assert(w + x =~= w);
    } else {
        let v = w + x;
        let r = last_group_len(a, v.len() as int);
        lemma_group_lengths(a, w.len() as int, x.len() as int);
        assert(v.take(v.len() - r) =~= w + x.take(x.len() - r));
        lemma_decode_settled(a, w, x.take(x.len() - r));
    }
}

/// Symbols that end inside a group, after whole groups that neither failed
/// nor ended the message, are truncated input.
#[verifier::rlimit(30)]
pub proof fn lemma_decode_truncated(a: Alphabet, w: Seq<u8>, x: Seq<u8>)
    requires
        whole_groups(a, w.len() as int) == w.len(),
        0 < x.len() < a.block_encoded(),
        decode_groups(a, w) is Ok,
        !decode_groups(a, w)->Ok_0.1,
    ensures
        decode_groups(a, w + x) == Err::<(Seq<u8>, bool), CodecError>(CodecError::TruncatedInput),
{
    let v = w + x;
    lemma_group_lengths(a, w.len() as int, x.len() as int);
    assert(v.take(v.len() - x.len()) =~= w);
}

/// A pass over the whole input is the pass over its full groups, and
/// symbols left over after them are truncated input.
pub proof fn lemma_pass_of_groups(a: Alphabet, v: Seq<u8>)
    ensures
        decode_groups(a, v) == match decode_groups(a, v.take(whole_groups(a, v.len() as int))) {
            Err(e) => Err(e),
            Ok((bytes, true)) => Ok((bytes, true)),
            Ok((bytes, false)) => if whole_groups(a, v.len() as int) < v.len() {
                Err(CodecError::TruncatedInput)
            } else {
                Ok((bytes, false))
            },
        },
{
    let k = whole_groups(a, v.len() as int);
    if v.len() > 0 {
        lemma_group_lengths(a, 0, v.len() as int);
    }
    let w = v.take(k);
    let x = v.skip(k);
    assert(v =~= w + x);
    if decode_groups(a, w) is Err || decode_groups(a, w)->Ok_0.1 {
        lemma_decode_settled(a, w, x);
    } else if k < v.len() {
        lemma_decode_truncated(a, w, x);
    } else {
        assert(w =~= v);
    }
}

/// How the length of the last block follows from the length of the input.
#[verifier::rlimit(40)]
pub proof fn lemma_block_lengths(a: Alphabet, n: int)
    requires
        0 < n,
    ensures
        1 <= last_block_len(a, n) <= n,
        last_block_len(a, n) <= a.block_raw(),
        whole_blocks(a, n - last_block_len(a, n)) == n - last_block_len(a, n),
        whole_blocks(a, n) == n <==> last_block_len(a, n) == a.block_raw(),
        encoded_len(a, n) == encoded_len(a, n - last_block_len(a, n)) + a.block_encoded(),
        encoded_len(a, 0) == 0,
        whole_groups(a, encoded_len(a, n)) == encoded_len(a, n),
{
    match a {
        Alphabet::Hex => {},
        Alphabet::Base32Std | Alphabet::Base32Hex => {
            lemma_rem(0, n, 5);
        },
        Alphabet::Base64Std | Alphabet::Base64Url => {
            lemma_rem(0, n, 3);
        },
    }
}

/// The encoding is as long as the length formula says: twice the input for
/// hex, eight symbols for every five bytes or part of them for Base32,
/// four for every three for Base64. So it is always made of whole groups.
pub proof fn lemma_encoded_len(a: Alphabet, s: Seq<u8>)
    ensures
        encoded(a, s).len() == encoded_len(a, s.len() as int),
        whole_groups(a, encoded(a, s).len() as int) == encoded(a, s).len(),
        a == Alphabet::Hex ==> encoded(a, s).len() == 2 * s.len(),
        a == Alphabet::Base32Std || a == Alphabet::Base32Hex ==> encoded(a, s).len() % 8 == 0,
        a == Alphabet::Base64Std || a == Alphabet::Base64Url ==> encoded(a, s).len() % 4 == 0,
    decreases s.len(),
{
    if s.len() > 0 {
        let r = last_block_len(a, s.len() as int);
        lemma_block_lengths(a, s.len() as int);
        lemma_encoded_len(a, s.take(s.len() - r));
    }
}

/// Every byte of an encoding is a symbol of the alphabet or padding.
pub proof fn lemma_encoded_symbols(a: Alphabet, s: Seq<u8>, i: int)
    requires
        0 <= i < encoded(a, s).len(),
    ensures
        encoded(a, s)[i] == PAD || exists|v: int|
            0 <= v < a.radix() && encoded(a, s)[i] == #[trigger] a.forward(v),
        !is_whitespace(encoded(a, s)[i]),
    decreases s.len(),
{
    if s.len() > 0 {
        let r = last_block_len(a, s.len() as int);
        lemma_block_lengths(a, s.len() as int);
        let head = encoded(a, s.take(s.len() - r));
        let blk = s.skip(s.len() - r);
        if i < head.len() {
            lemma_encoded_symbols(a, s.take(s.len() - r), i);
        } else {
            let j = i - head.len();
            if j < data_symbols(a, blk.len() as int) {
                let v = group_value(a, blk, j);
                assert(0 <= v < a.radix());
                assert(encoded(a, s)[i] == a.forward(v));
            }
        }
    }
}

/// Decoding whole groups followed by more symbols: unless the groups have
/// failed or ended the message, their bytes come first and the result of
/// the rest decides.
#[verifier::rlimit(30)]
pub proof fn lemma_decode_concat(a: Alphabet, w: Seq<u8>, z: Seq<u8>)
    requires
        whole_groups(a, w.len() as int) == w.len(),
    ensures
        decode_groups(a, w + z) == match decode_groups(a, w) {
            Err(e) => Err(e),
            Ok((bytes, true)) => Ok((bytes, true)),
            Ok((bytes, false)) => match decode_groups(a, z) {
                Err(e) => Err(e),
                Ok((more, end)) => Ok((bytes + more, end)),
            },
        },
    decreases z.len(),
{
    if decode_groups(a, w) is Err || decode_groups(a, w)->Ok_0.1 {
        lemma_decode_settled(a, w, z);
    } else if z.len() == 0 {
        assert(w + z =~= w);
        let bytes = decode_groups(a, w)->Ok_0.0;
        assert(bytes + Seq::<u8>::empty() =~= bytes);
    } else {
        let v = w + z;
        let r = last_group_len(a, z.len() as int);
        lemma_group_lengths(a, w.len() as int, z.len() as int);
        lemma_group_sums(a, w.len() as int, z.len() as int);
        let zh = z.take(z.len() - r);
        assert(v.take(v.len() - r) =~= w + zh);
        lemma_decode_concat(a, w, zh);
        let bytes = decode_groups(a, w)->Ok_0.0;
        if r == a.block_encoded() {
            assert(v.skip(v.len() - r) =~= z.skip(z.len() - r));
            match decode_groups(a, zh) {
                Ok((more, false)) => {
                    match decode_group(a, z.skip(z.len() - r)) {
                        Ok((last, end)) => {
                            assert(bytes + (more + last) =~= (bytes + more) + last);
                        },
                        Err(e) => {},
                    }
                },
                _ => {},
            }
        }
    }
}

/// Symbols behind whole groups that hold a padded group trail it.
pub proof fn lemma_trails(a: Alphabet, w: Seq<u8>, x: Seq<u8>)
    requires
        whole_groups(a, w.len() as int) == w.len(),
        ended(decode_groups(a, w)),
        x.len() > 0,
    ensures
        trails(a, w + x),
        decode_symbols(a, w + x) == Err::<(Seq<u8>, bool), CodecError>(
            misplaced(a, x.len() as int),
        ),
        misplaced(a, (w + x).len() as int) == misplaced(a, x.len() as int),
{
    let v = w + x;
    let r = last_group_len(a, v.len() as int);
    lemma_group_lengths(a, w.len() as int, x.len() as int);
    lemma_group_sums(a, w.len() as int, x.len() as int);
    assert(v.take(v.len() - r) =~= w + x.take(x.len() - r));
    lemma_decode_settled(a, w, x.take(x.len() - r));
}

/// Less than a group of symbols, behind whole groups that hold no padded
/// group, trails no padded group.
pub proof fn lemma_no_trail(a: Alphabet, w: Seq<u8>, x: Seq<u8>)
    requires
        whole_groups(a, w.len() as int) == w.len(),
        !ended(decode_groups(a, w)),
        x.len() < a.block_encoded(),
    ensures
        !trails(a, w + x),
{
    let v = w + x;
    if v.len() > 0 {
        let r = last_group_len(a, v.len() as int);
        if x.len() > 0 {
            lemma_group_lengths(a, w.len() as int, x.len() as int);
            assert(v.take(v.len() - r) =~= w);
        } else {
            assert(v =~= w);
            lemma_group_lengths(a, 0, w.len() as int);
            let p = w.take(w.len() - r);
            assert(w =~= p + w.skip(w.len() - r));
            if ended(decode_groups(a, p)) {
                lemma_decode_settled(a, p, w.skip(w.len() - r));
            }
        }
    }
}

/// Whole groups that have failed stay failed whatever follows, and the
/// failure is that of the symbols as a whole.
pub proof fn lemma_failed(a: Alphabet, w: Seq<u8>, x: Seq<u8>)
    requires
        whole_groups(a, w.len() as int) == w.len(),
        decode_groups(a, w) is Err,
    ensures
        !trails(a, w + x),
        decode_symbols(a, w + x) == decode_groups(a, w),
{
    let v = w + x;
    lemma_decode_settled(a, w, x);
    if x.len() > 0 {
        let r = last_group_len(a, v.len() as int);
        lemma_group_lengths(a, w.len() as int, x.len() as int);
        assert(v.take(v.len() - r) =~= w + x.take(x.len() - r));
        lemma_decode_settled(a, w, x.take(x.len() - r));
    } else {
        lemma_no_trail(a, w, x);
    }
}

} // verus!

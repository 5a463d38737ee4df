//! The decoding pass that the one-shot decoders and the streaming readers
//! share: whitespace is skipped, symbols are gathered into groups, and each
//! full group is decoded as soon as it is complete.

use vstd::prelude::*;
use crate::alphabet::{lemma_forward_of_inverse, whitespace, Alphabet, INVALID, PAD};
use crate::error::CodecError;
use crate::model::{
    data_len,
    decode_group,
    decode_groups,
    decode_pass,
    decoded,
    drops,
    ended,
    first_pad,
    kept,
    last_group_len,
    lemma_decode_concat,
    lemma_decode_settled,
    lemma_decode_step,
    lemma_failed,
    lemma_group_lengths,
    lemma_group_sums,
    lemma_kept_concat,
    lemma_kept_parity,
    lemma_kept_step,
    lemma_no_trail,
    lemma_pass_of_groups,
    lemma_trails,
    misplaced,
    trails,
    unpack,
    value_at,
    visible,
    whole_groups,
};
use crate::util::{DecodeResult, GroupDecoder};

verus! {

/// What a pass leaves behind: the bytes decoded from the full groups, the
/// symbols of a group that is not yet complete, and whether a padded group
/// ended the message.
pub struct Absorbed {
    pub bytes: Vec<u8>,
    pub carry: Vec<u8>,
    pub end: bool,
}

/// The symbols that a pass reads: those carried over from before, then
/// those of `s`.
pub open spec fn taken(a: Alphabet, carry: Seq<u8>, s: Seq<u8>) -> Seq<u8> {
    carry + kept(a, carry.len() as int, s)
}

/// Decoding as far as the full groups reach.
///
/// The symbols carried over from before and the visible bytes of `s` are
/// read as one sequence. Its full groups are decoded; the symbols after the
/// last full group are carried on. A padded group ends the message and must
/// be the last of the sequence: symbols behind it fail the pass, see
/// [`misplaced`].
#[verifier::opaque]
pub open spec fn absorbed(a: Alphabet, carry: Seq<u8>, s: Seq<u8>) -> Result<
    (Seq<u8>, Seq<u8>, bool),
    CodecError,
> {
    let v = taken(a, carry, s);
    let k = whole_groups(a, v.len() as int);
    if trails(a, v) {
        Err(misplaced(a, v.len() as int))
    } else {
        match decode_groups(a, v.take(k)) {
            Err(e) => Err(e),
            Ok((bytes, end)) => Ok(
                (
                    bytes,
                    if end {
                        Seq::empty()
                    } else {
                        v.skip(k)
                    },
                    end,
                ),
            ),
        }
    }
}

/// The full groups of `w + x` decode as `w` does once `w` has failed or
/// ended the message.
proof fn lemma_absorbed_settled(a: Alphabet, w: Seq<u8>, x: Seq<u8>)
    requires
        whole_groups(a, w.len() as int) == w.len(),
        decode_groups(a, w) is Err || decode_groups(a, w)->Ok_0.1,
    ensures
        ({
            let v = w + x;
            decode_groups(a, v.take(whole_groups(a, v.len() as int))) == decode_groups(a, w)
        }),
{
    let v = w + x;
    let k = whole_groups(a, v.len() as int);
    if x.len() > 0 {
        lemma_group_lengths(a, w.len() as int, x.len() as int);
    }
    assert(w.len() <= k <= v.len());
    assert(v.take(k) =~= w + x.take(k - w.len()));
    lemma_decode_settled(a, w, x.take(k - w.len()));
}

/// One more visible symbol that does not complete a group joins the
/// symbols carried on.
proof fn lemma_absorb_symbol(v0: Seq<u8>, k: int, c: u8)
    requires
        0 <= k <= v0.len(),
    ensures
        v0.push(c).take(k) == v0.take(k),
        v0.push(c).skip(k) == v0.skip(k).push(c),
{
    assert(v0.push(c).take(k) =~= v0.take(k));
    assert(v0.push(c).skip(k) =~= v0.skip(k).push(c));
}

/// The symbol that completes a group: the groups so far, then this group.
proof fn lemma_absorb_group(a: Alphabet, v1: Seq<u8>, k: int)
    requires
        0 <= k,
        whole_groups(a, k) == k,
        v1.len() == k + a.block_encoded(),
    ensures
        whole_groups(a, v1.len() as int) == v1.len(),
        v1.take(v1.len() as int) == v1,
        v1.skip(v1.len() as int) == Seq::<u8>::empty(),
        decode_groups(a, v1) == match decode_groups(a, v1.take(k)) {
            Err(e) => Err(e),
            Ok((bytes, true)) => Ok((bytes, true)),
            Ok((bytes, false)) => match decode_group(a, v1.skip(k)) {
                Err(e) => Err(e),
                Ok((more, end)) => Ok((bytes + more, end)),
            },
        },
{
    lemma_group_lengths(a, k, a.block_encoded());
    assert(v1 =~= v1.take(k) + v1.skip(k));
    lemma_decode_step(a, v1.take(k), v1.skip(k));
    assert(v1.take(v1.len() as int) =~= v1);
    assert(v1.skip(v1.len() as int) =~= Seq::<u8>::empty());
}

/// What follows byte `i`, read with all the symbols before it read first.
pub open spec fn beyond(a: Alphabet, carry: Seq<u8>, s: Seq<u8>, i: int) -> Seq<u8> {
    kept(a, taken(a, carry, s.take(i)).len() as int, s.skip(i))
}

/// What was read up to byte `i` is a prefix of what the whole input gives.
proof fn lemma_absorb_rest(a: Alphabet, carry: Seq<u8>, s: Seq<u8>, i: int)
    requires
        0 <= i <= s.len(),
    ensures
        taken(a, carry, s) == taken(a, carry, s.take(i)) + beyond(a, carry, s, i),
        whole_groups(a, taken(a, carry, s.take(i)).len() as int) == taken(
            a,
            carry,
            s.take(i),
        ).len() ==> beyond(a, carry, s, i) == visible(a, s.skip(i)),
{
    assert(s =~= s.take(i) + s.skip(i));
    lemma_kept_concat(a, carry.len() as int, s.take(i), s.skip(i));
    assert(taken(a, carry, s) =~= taken(a, carry, s.take(i)) + beyond(a, carry, s, i));
    let n = taken(a, carry, s.take(i)).len() as int;
    if whole_groups(a, n) == n {
        lemma_kept_parity(a, n, 0, s.skip(i));
    }
}

/// A pass whose groups fail when byte `i` is reached fails as they do,
/// whatever follows.
proof fn lemma_absorb_failed(a: Alphabet, carry: Seq<u8>, s: Seq<u8>, i: int)
    requires
        0 <= i <= s.len(),
        whole_groups(a, taken(a, carry, s.take(i)).len() as int) == taken(a, carry, s.take(i)).len(),
        decode_groups(a, taken(a, carry, s.take(i))) is Err,
    ensures
        absorbed(a, carry, s) == Err::<(Seq<u8>, Seq<u8>, bool), CodecError>(
            decode_groups(a, taken(a, carry, s.take(i)))->Err_0,
        ),
{
    reveal(absorbed);
    let w = taken(a, carry, s.take(i));
    let x = visible(a, s.skip(i));
    lemma_absorb_rest(a, carry, s, i);
    lemma_absorbed_settled(a, w, x);
    lemma_failed(a, w, x);
}

/// A pass that meets a padded group when byte `i` is reached ends there
/// if nothing visible follows, and fails if anything does.
proof fn lemma_absorb_ended(a: Alphabet, carry: Seq<u8>, s: Seq<u8>, i: int)
    requires
        0 <= i <= s.len(),
        taken(a, carry, s.take(i)).len() >= a.block_encoded(),
        whole_groups(a, taken(a, carry, s.take(i)).len() as int) == taken(a, carry, s.take(i)).len(),
        ended(decode_groups(a, taken(a, carry, s.take(i)))),
        !ended(
            decode_groups(
                a,
                taken(a, carry, s.take(i)).take(
                    taken(a, carry, s.take(i)).len() - a.block_encoded(),
                ),
            ),
        ),
    ensures
        absorbed(a, carry, s) == if visible(a, s.skip(i)).len() == 0 {
            Ok::<(Seq<u8>, Seq<u8>, bool), CodecError>(
                (decode_groups(a, taken(a, carry, s.take(i)))->Ok_0.0, Seq::<u8>::empty(), true),
            )
        } else {
            Err::<(Seq<u8>, Seq<u8>, bool), CodecError>(
                misplaced(a, visible(a, s.skip(i)).len() as int),
            )
        },
{
    reveal(absorbed);
    let w = taken(a, carry, s.take(i));
    let x = visible(a, s.skip(i));
    lemma_absorb_rest(a, carry, s, i);
    if x.len() > 0 {
        lemma_trails(a, w, x);
    } else {
        assert(w + x =~= w);
        lemma_group_lengths(a, 0, w.len() as int);
        assert(w.take(w.len() as int) =~= w);
    }
}

/// A pass that reaches the end of the input without a padded group gives
/// the bytes of its whole groups and carries the rest on.
proof fn lemma_absorb_done(a: Alphabet, carry: Seq<u8>, s: Seq<u8>, k: int, out: Seq<u8>)
    requires
        0 <= k <= taken(a, carry, s).len(),
        whole_groups(a, k) == k,
        taken(a, carry, s).len() - k < a.block_encoded(),
        decode_groups(a, taken(a, carry, s).take(k)) == Ok::<(Seq<u8>, bool), CodecError>(
            (out, false),
        ),
    ensures
        absorbed(a, carry, s) == Ok::<(Seq<u8>, Seq<u8>, bool), CodecError>(
            (out, taken(a, carry, s).skip(k), false),
        ),
{
    reveal(absorbed);
    let v = taken(a, carry, s);
    if v.len() > k {
        lemma_group_lengths(a, k, v.len() - k);
    }
    assert(whole_groups(a, v.len() as int) == k);
    assert(v =~= v.take(k) + v.skip(k));
    lemma_no_trail(a, v.take(k), v.skip(k));
}

/// What a pass carries on is less than a group, and nothing once the
/// message has ended.
pub proof fn lemma_absorbed_carry(a: Alphabet, carry: Seq<u8>, s: Seq<u8>)
    ensures
        match absorbed(a, carry, s) {
            Err(e) => true,
            Ok((bytes, rest, end)) => rest.len() < a.block_encoded() && (end ==> rest.len() == 0),
        },
{
    reveal(absorbed);
    let v = taken(a, carry, s);
    if v.len() > 0 {
        lemma_group_lengths(a, 0, v.len() as int);
    }
}

/// A pass that ends the message has read whole groups and nothing more.
proof fn lemma_absorbed_end(a: Alphabet, carry: Seq<u8>, s: Seq<u8>)
    requires
        absorbed(a, carry, s) is Ok,
        absorbed(a, carry, s)->Ok_0.2,
    ensures
        whole_groups(a, taken(a, carry, s).len() as int) == taken(a, carry, s).len(),
        ended(decode_groups(a, taken(a, carry, s))),
        decode_groups(a, taken(a, carry, s))->Ok_0.0 == absorbed(a, carry, s)->Ok_0.0,
{
    reveal(absorbed);
    let v = taken(a, carry, s);
    let k = whole_groups(a, v.len() as int);
    lemma_group_sums(a, 0, v.len() as int);
    if k < v.len() {
        lemma_group_lengths(a, k, v.len() - k);
        assert(trails(a, v));
    }
    assert(v.take(k) =~= v);
}

/// Whole groups with no padded group among them, put in front, change
/// neither whether symbols trail a padded group nor the error for that.
proof fn lemma_trails_shift(a: Alphabet, w: Seq<u8>, u: Seq<u8>)
    requires
        whole_groups(a, w.len() as int) == w.len(),
        decode_groups(a, w) is Ok,
        !ended(decode_groups(a, w)),
    ensures
        trails(a, w + u) == trails(a, u),
        misplaced(a, (w + u).len() as int) == misplaced(a, u.len() as int),
{
    lemma_group_sums(a, w.len() as int, u.len() as int);
    if u.len() == 0 {
        lemma_no_trail(a, w, u);
    } else {
        let v = w + u;
        let r = last_group_len(a, u.len() as int);
        lemma_group_lengths(a, w.len() as int, u.len() as int);
        assert(v.take(v.len() - r) =~= w + u.take(u.len() - r));
        lemma_decode_concat(a, w, u.take(u.len() - r));
    }
}

/// A pass over two inputs in a row, where the pass over the first
/// succeeds. Where the first ended the message, the second may hold
/// nothing visible, or the pass fails. Else the pass over the second goes
/// on with what the first carried on.
pub proof fn lemma_absorbed_concat(a: Alphabet, carry: Seq<u8>, x: Seq<u8>, y: Seq<u8>)
    requires
        absorbed(a, carry, x) is Ok,
    ensures
        absorbed(a, carry, x + y) == match absorbed(a, carry, x)->Ok_0 {
            (bytes, rest, true) => if visible(a, y).len() == 0 {
                Ok((bytes, rest, true))
            } else {
                Err(misplaced(a, visible(a, y).len() as int))
            },
            (bytes, rest, false) => match absorbed(a, rest, y) {
                Err(e) => Err(e),
                Ok((more, left, end)) => Ok((bytes + more, left, end)),
            },
        },
{
    let vx = taken(a, carry, x);
    let v = taken(a, carry, x + y);
    let more = kept(a, vx.len() as int, y);
    lemma_kept_concat(a, carry.len() as int, x, y);
    assert(v =~= vx + more);
    if absorbed(a, carry, x)->Ok_0.2 {
        lemma_absorbed_end(a, carry, x);
        lemma_absorbed_carry(a, carry, x);
        lemma_kept_parity(a, vx.len() as int, 0, y);
        if visible(a, y).len() == 0 {
            assert(v =~= vx);
            reveal(absorbed);
        } else {
            lemma_trails(a, vx, visible(a, y));
            reveal(absorbed);
        }
    } else {
        reveal(absorbed);
        let k1 = whole_groups(a, vx.len() as int);
        let w = vx.take(k1);
        let rest = vx.skip(k1);
        lemma_group_sums(a, 0, vx.len() as int);
        lemma_kept_parity(a, vx.len() as int, rest.len() as int, y);
        let u = taken(a, rest, y);
        assert(v =~= w + u);
        let k2 = whole_groups(a, u.len() as int);
        lemma_group_sums(a, k1, u.len() as int);
        assert(v.take(k1 + k2) =~= w + u.take(k2));
        assert(v.skip(k1 + k2) =~= u.skip(k2));
        lemma_decode_concat(a, w, u.take(k2));
        lemma_trails_shift(a, w, u);
    }
}

/// A pass over no input, with nothing carried, decodes nothing.
pub proof fn lemma_absorbed_nothing(a: Alphabet)
    ensures
        absorbed(a, Seq::empty(), Seq::empty()) == Ok::<(Seq<u8>, Seq<u8>, bool), CodecError>(
            (Seq::empty(), Seq::empty(), false),
        ),
{
    reveal(absorbed);
    let none = Seq::<u8>::empty();
    assert(taken(a, none, none) =~= none);
    assert(!trails(a, none));
    assert(none.take(0) =~= none);
    assert(none.skip(0) =~= none);
}

/// The one-shot pass in terms of the pass over the full groups: it fails
/// as that does, ends as that does, and symbols left over after the full
/// groups are truncated input.
pub proof fn lemma_pass_of_absorbed(a: Alphabet, s: Seq<u8>)
    ensures
        decode_pass(a, s) == match absorbed(a, Seq::empty(), s) {
            Err(e) => Err(e),
            Ok((bytes, rest, end)) => if !end && rest.len() > 0 {
                Err(CodecError::TruncatedInput)
            } else {
                Ok((bytes, end))
            },
        },
{
    reveal(absorbed);
    let v = taken(a, Seq::<u8>::empty(), s);
    assert(v =~= visible(a, s));
    lemma_pass_of_groups(a, v);
    lemma_group_sums(a, 0, v.len() as int);
}

/// Executable form of [`whole_groups`].
pub fn whole_groups_of(a: Alphabet, n: usize) -> (k: usize)
    ensures
        k == whole_groups(a, n as int),
        k <= n,
{
    match a {
        Alphabet::Hex => n - n % 2,
        Alphabet::Base32Std | Alphabet::Base32Hex => n - n % 8,
        Alphabet::Base64Std | Alphabet::Base64Url => n - n % 4,
    }
}

/// Counts the visible symbols of `src` from byte `from` on.
pub fn count_visible(a: Alphabet, src: &[u8], from: usize) -> (n: usize)
    requires
        from <= src@.len(),
    ensures
        n == visible(a, src@.skip(from as int)).len(),
{
    let ghost rest = src@.skip(from as int);
    let pairs = match a {
        Alphabet::Hex => true,
        _ => false,
    };
    let len = src.len();
    let mut n: usize = 0;
    let mut j: usize = from;
    proof {
        assert(rest.take(0) =~= Seq::<u8>::empty());
    }
    while j < len
        invariant
            len == src@.len(),
            from <= j <= len,
            rest == src@.skip(from as int),
            pairs == (a == Alphabet::Hex),
            n == kept(a, 0, rest.take(j - from)).len(),
            n <= j - from,
        decreases len - j,
    {
        proof {
            lemma_kept_step(a, 0, rest, j - from);
        }
        if !(whitespace(src[j]) && (!pairs || n % 2 == 0)) {
            n += 1;
        }
        j += 1;
    }
    proof {
        assert(rest.take(len - from) =~= rest);
    }
    n
}

/// The error for `n > 0` visible bytes behind a padded group.
pub fn misplaced_of(a: Alphabet, n: usize) -> (e: CodecError)
    ensures
        e == misplaced(a, n as int),
{
    if whole_groups_of(a, n) == n {
        CodecError::InvalidPadding
    } else {
        CodecError::TruncatedInput
    }
}

/// Runs one pass over `src`, starting with the symbols in `carry`: see
/// [`absorbed`].
#[verifier::rlimit(30)]
pub fn absorb<D: GroupDecoder>(codec: &D, carry: &[u8], src: &[u8]) -> (res: Result<
    Absorbed,
    CodecError,
>)
    requires
        carry@.len() < codec.alphabet().block_encoded(),
    ensures
        match absorbed(codec.alphabet(), carry@, src@) {
            Err(e) => res is Err && res->Err_0 == e,
            Ok((bytes, rest, end)) => res is Ok && res->Ok_0.bytes@ == bytes && res->Ok_0.carry@
                == rest && res->Ok_0.end == end,
        },
{
    let a = codec.letters();
    let g = a.group_len();
    let pairs = match a {
        Alphabet::Hex => true,
        _ => false,
    };
    let mut group: Vec<u8> = Vec::new();
    group.extend_from_slice(carry);
    let mut out: Vec<u8> = Vec::new();
    let len = src.len();
    let mut i: usize = 0;
    proof {
        assert(src@.take(0) =~= Seq::<u8>::empty());
        assert(taken(a, carry@, src@.take(0)) =~= carry@);
        assert(carry@.take(0) =~= Seq::<u8>::empty());
        assert(carry@.skip(0) =~= carry@);
    }
    while i < len
        invariant
            a == codec.alphabet(),
            g == a.block_encoded(),
            pairs == (a == Alphabet::Hex),
            len == src@.len(),
            i <= len,
            group@.len() < g,
            ({
                let v = taken(a, carry@, src@.take(i as int));
                let k = v.len() - group@.len();
                &&& k >= 0
                &&& whole_groups(a, k) == k
                &&& group@ == v.skip(k)
                &&& decode_groups(a, v.take(k)) == Ok::<(Seq<u8>, bool), CodecError>(
                    (out@, false),
                )
            }),
        decreases len - i,
    {
        let c: u8 = src[i];
        let ghost v0 = taken(a, carry@, src@.take(i as int));
        let ghost k0 = v0.len() - group@.len();
        let ghost v1 = taken(a, carry@, src@.take(i + 1));
        proof {
            lemma_kept_step(a, carry@.len() as int, src@, i as int);
            assert(drops(a, v0.len() as int) == (!pairs || group@.len() % 2 == 0));
        }
        if !(whitespace(c) && (!pairs || group.len() % 2 == 0)) {
            group.push(c);
            proof {
                assert(v1 =~= v0.push(c));
                lemma_absorb_symbol(v0, k0, c);
            }
            if group.len() == g {
                proof {
                    lemma_absorb_group(a, v1, k0);
                }
                match codec.decode_group(&mut out, group.as_slice()) {
                    Err(e) => {
                        proof {
                            lemma_absorb_failed(a, carry@, src@, i + 1);
                        }
                        return Err(e);
                    },
                    Ok(end) => {
                        if end {
                            proof {
                                assert(v1.take(v1.len() - g) =~= v0.take(k0));
                                lemma_absorb_ended(a, carry@, src@, i + 1);
                            }
                            let behind = count_visible(a, src, i + 1);
                            if behind > 0 {
                                return Err(misplaced_of(a, behind));
                            }
                            return Ok(Absorbed { bytes: out, carry: Vec::new(), end: true });
                        }
                        group.clear();
                    },
                }
            }
        } else {
            proof {
                assert(v1 == v0);
            }
        }
        i += 1;
    }
    proof {
        assert(src@.take(len as int) =~= src@);
        let v = taken(a, carry@, src@);
        lemma_absorb_done(a, carry@, src@, v.len() - group@.len(), out@);
    }
    Ok(Absorbed { bytes: out, carry: group, end: false })
}

/// Checks the shape of one group and looks up its data symbols.
///
/// Gives back the group values, with zero in the place of padding, and the
/// number of data symbols; or the error that the group decodes to.
#[verifier::rlimit(30)]
pub fn group_values(a: Alphabet, decode_map: &[u8; 256], group: &[u8]) -> (res: Result<
    (Vec<u8>, usize),
    CodecError,
>)
    requires
        forall|c: u8| #[trigger] decode_map@[c as int] == a.inverse(c),
        group@.len() == a.block_encoded(),
    ensures
        match res {
            Err(e) => decode_group(a, group@) == Err::<(Seq<u8>, bool), CodecError>(e),
            Ok((vals, n)) => {
                &&& n == data_len(a, group@)
                &&& 2 <= n <= group@.len()
                &&& decode_group(a, group@) == Ok::<(Seq<u8>, bool), CodecError>(
                    (unpack(a, group@, n as int), n < group@.len()),
                )
                &&& vals@.len() == group@.len()
                &&& forall|j: int|
                    0 <= j < vals@.len() ==> #[trigger] vals@[j] == value_at(
                        a,
                        group@,
                        n as int,
                        j,
                    ) && vals@[j] < a.radix()
            },
        },
{
    reveal(decode_group);
    let g = group.len();
    let mut n: usize = g;
    match a {
        Alphabet::Hex => {},
        _ => {
            n = 0;
            while n < g && group[n] != PAD
                invariant
                    g == group@.len(),
                    n <= g,
                    first_pad(group@, 0) == first_pad(group@, n as int),
                decreases g - n,
            {
                n += 1;
            }
        },
    }
    assert(n == data_len(a, group@));
    if n < 2 {
        return Err(CodecError::InvalidPadding);
    }
    let mut j: usize = n;
    while j < g
        invariant
            g == group@.len(),
            2 <= n <= j <= g,
            n == data_len(a, group@),
            forall|t: int| n <= t < j ==> group@[t] == PAD,
        decreases g - j,
    {
        if group[j] != PAD {
            proof {
                reveal(decode_group);
                assert(n <= j < group@.len() && group@[j as int] != PAD);
            }
            return Err(CodecError::InvalidPadding);
        }
        j += 1;
    }
    let mut vals: Vec<u8> = Vec::new();
    let mut j: usize = 0;
    while j < g
        invariant
            g == group@.len(),
            2 <= n <= g,
            j <= g,
            n == data_len(a, group@),
            vals@.len() == j,
            forall|c: u8| #[trigger] decode_map@[c as int] == a.inverse(c),
            forall|t: int| n <= t < g ==> group@[t] == PAD,
            forall|t: int| 0 <= t < j && t < n ==> a.is_symbol(#[trigger] group@[t]),
            forall|t: int|
                0 <= t < j ==> #[trigger] vals@[t] == value_at(a, group@, n as int, t) && vals@[t]
                    < a.radix(),
        decreases g - j,
    {
        if j < n {
            let c: u8 = group[j];
            let v: u8 = decode_map[c as usize];
            if v == INVALID {
                proof {
                    reveal(decode_group);
                    assert(!a.is_symbol(group@[j as int]));
                }
                return Err(CodecError::InvalidSymbol);
            }
            proof {
                lemma_forward_of_inverse(a, c);
            }
            vals.push(v);
        } else {
            vals.push(0);
        }
        j += 1;
    }
    Ok((vals, n))
}

/// One decoding pass over the whole of `src`, as every codec offers it:
/// the decoded bytes are appended to `dst`; symbols that do not fill a last
/// group are an error.
pub fn decode_into<D: GroupDecoder>(codec: &D, dst: &mut Vec<u8>, src: &[u8]) -> (res: Result<
    DecodeResult,
    CodecError,
>)
    ensures
        match decode_pass(codec.alphabet(), src@) {
            Ok((bytes, end)) => res == Ok::<DecodeResult, CodecError>(
                (DecodeResult { end, ndecoded: bytes.len() as usize }),
            ) && final(dst)@ == old(dst)@ + bytes,
            Err(e) => res == Err::<DecodeResult, CodecError>(e) && final(dst)@ == old(dst)@,
        },
{
    let none: Vec<u8> = Vec::new();
    proof {
        lemma_pass_of_absorbed(codec.alphabet(), src@);
        assert(old(dst)@ + Seq::<u8>::empty() =~= old(dst)@);
    }
    match absorb(codec, none.as_slice(), src) {
        Err(e) => Err(e),
        Ok(pass) => {
            if !pass.end && pass.carry.len() > 0 {
                Err(CodecError::TruncatedInput)
            } else {
                dst.extend_from_slice(pass.bytes.as_slice());
                Ok(DecodeResult { end: pass.end, ndecoded: pass.bytes.len() })
            }
        },
    }
}

/// The bytes that the whole of `src` decodes to.
pub fn decode_all<D: GroupDecoder>(codec: &D, src: &[u8]) -> (res: Result<Vec<u8>, CodecError>)
    ensures
        match decoded(codec.alphabet(), src@) {
            Ok(bytes) => res is Ok && res->Ok_0@ == bytes,
            Err(e) => res == Err::<Vec<u8>, CodecError>(e),
        },
{
    let mut dst: Vec<u8> = Vec::new();
    match decode_into(codec, &mut dst, src) {
        Err(e) => Err(e),
        Ok(_) => {
            proof {
                assert(Seq::<u8>::empty() + decoded(codec.alphabet(), src@)->Ok_0 =~= decoded(
                    codec.alphabet(),
                    src@,
                )->Ok_0);
            }
            Ok(dst)
        },
    }
}

} // verus!

//! The five symbol tables of RFC 4648 and the maps between group values and
//! symbols.

use vstd::prelude::*;

verus! {

/// The padding symbol `=`.
pub const PAD: u8 = 61;

/// The entry of a decode map that marks a byte outside the alphabet.
pub const INVALID: u8 = 255;

/// Space, tab, line feed and carriage return are skipped when decoding.
pub open spec fn is_whitespace(c: u8) -> bool {
    c == 32 || c == 9 || c == 10 || c == 13
}

/// Executable form of [`is_whitespace`].
pub fn whitespace(c: u8) -> (w: bool)
    ensures
        w == is_whitespace(c),
{
    c == 32 || c == 9 || c == 10 || c == 13
}

/// One of the five alphabets.
#[derive(Clone, Copy, Debug, PartialEq, Eq, Structural)]
pub enum Alphabet {
    /// `0-9 A-F`, four bits per symbol; lower case is accepted when decoding.
    Hex,
    /// `A-Z 2-7`, five bits per symbol.
    Base32Std,
    /// `0-9 A-V`, five bits per symbol.
    Base32Hex,
    /// `A-Z a-z 0-9 + /`, six bits per symbol.
    Base64Std,
    /// `A-Z a-z 0-9 - _`, six bits per symbol.
    Base64Url,
}

impl Alphabet {
    /// Number of symbols: 16, 32 or 64.
    pub open spec fn radix(self) -> int {
        match self {
            Alphabet::Hex => 16,
            Alphabet::Base32Std | Alphabet::Base32Hex => 32,
            Alphabet::Base64Std | Alphabet::Base64Url => 64,
        }
    }

    /// Raw bytes in a full block: 1, 5 or 3.
    pub open spec fn block_raw(self) -> int {
        match self {
            Alphabet::Hex => 1,
            Alphabet::Base32Std | Alphabet::Base32Hex => 5,
            Alphabet::Base64Std | Alphabet::Base64Url => 3,
        }
    }

    /// Symbols in a group: 2, 8 or 4.
    pub open spec fn block_encoded(self) -> int {
        match self {
            Alphabet::Hex => 2,
            Alphabet::Base32Std | Alphabet::Base32Hex => 8,
            Alphabet::Base64Std | Alphabet::Base64Url => 4,
        }
    }

    /// The symbol that stands for group value `v`.
    pub open spec fn forward(self, v: int) -> u8 {
        match self {
            Alphabet::Hex | Alphabet::Base32Hex => if v < 10 {
                (48 + v) as u8
            } else {
                (55 + v) as u8
            },
            Alphabet::Base32Std => if v < 26 {
                (65 + v) as u8
            } else {
                (24 + v) as u8
            },
            Alphabet::Base64Std | Alphabet::Base64Url => if v < 26 {
                (65 + v) as u8
            } else if v < 52 {
                (71 + v) as u8
            } else if v < 62 {
                (v - 4) as u8
            } else if v == 62 {
                if self == Alphabet::Base64Std { 43u8 } else { 45u8 }
            } else {
                if self == Alphabet::Base64Std { 47u8 } else { 95u8 }
            },
        }
    }

    /// The group value of `c` when only the symbols that encoding produces
    /// count, or [`INVALID`].
    pub open spec fn strict_inverse(self, c: u8) -> u8 {
        match self {
            Alphabet::Hex => if 48 <= c <= 57 {
                (c - 48) as u8
            } else if 65 <= c <= 70 {
                (c - 55) as u8
            } else {
                INVALID
            },
            Alphabet::Base32Std => if 65 <= c <= 90 {
                (c - 65) as u8
            } else if 50 <= c <= 55 {
                (c - 24) as u8
            } else {
                INVALID
            },
            Alphabet::Base32Hex => if 48 <= c <= 57 {
                (c - 48) as u8
            } else if 65 <= c <= 86 {
                (c - 55) as u8
            } else {
                INVALID
            },
            Alphabet::Base64Std | Alphabet::Base64Url => if 65 <= c <= 90 {
                (c - 65) as u8
            } else if 97 <= c <= 122 {
                (c - 71) as u8
            } else if 48 <= c <= 57 {
                (c + 4) as u8
            } else if c == self.forward(62) {
                62u8
            } else if c == self.forward(63) {
                63u8
            } else {
                INVALID
            },
        }
    }

    /// The group value that `c` decodes to, or [`INVALID`] where `c` is not
    /// part of the alphabet. Hex also takes the lower-case digits `a-f`.
    pub open spec fn inverse(self, c: u8) -> u8 {
        if self == Alphabet::Hex && 97 <= c <= 102 {
            (c - 87) as u8
        } else {
            self.strict_inverse(c)
        }
    }

    /// Whether `c` decodes to a group value.
    pub open spec fn is_symbol(self, c: u8) -> bool {
        self.inverse(c) != INVALID
    }

    /// Executable form of [`Alphabet::radix`].
    pub fn size(self) -> (n: u8)
        ensures
            n == self.radix(),
    {
        match self {
            Alphabet::Hex => 16,
            Alphabet::Base32Std | Alphabet::Base32Hex => 32,
            Alphabet::Base64Std | Alphabet::Base64Url => 64,
        }
    }

    /// Executable form of [`Alphabet::block_raw`].
    pub fn block_len(self) -> (n: usize)
        ensures
            n == self.block_raw(),
    {
        match self {
            Alphabet::Hex => 1,
            Alphabet::Base32Std | Alphabet::Base32Hex => 5,
            Alphabet::Base64Std | Alphabet::Base64Url => 3,
        }
    }

    /// Executable form of [`Alphabet::block_encoded`].
    pub fn group_len(self) -> (n: usize)
        ensures
            n == self.block_encoded(),
    {
        match self {
            Alphabet::Hex => 2,
            Alphabet::Base32Std | Alphabet::Base32Hex => 8,
            Alphabet::Base64Std | Alphabet::Base64Url => 4,
        }
    }

    /// Computes the symbol for group value `v`.
    pub fn symbol(self, v: u8) -> (c: u8)
        requires
            v < self.radix(),
        ensures
            c == self.forward(v as int),
    {
        match self {
            Alphabet::Hex | Alphabet::Base32Hex => if v < 10 {
                48 + v
            } else {
                55 + v
            },
            Alphabet::Base32Std => if v < 26 {
                65 + v
            } else {
                24 + v
            },
            Alphabet::Base64Std => if v < 26 {
                65 + v
            } else if v < 52 {
                71 + v
            } else if v < 62 {
                v - 4
            } else if v == 62 {
                43
            } else {
                47
            },
            Alphabet::Base64Url => if v < 26 {
                65 + v
            } else if v < 52 {
                71 + v
            } else if v < 62 {
                v - 4
            } else if v == 62 {
                45
            } else {
                95
            },
        }
    }

    /// Builds the 256-entry decode map: every entry starts as [`INVALID`],
    /// then each group value is stored at the place of its symbol, and for
    /// hex also at the place of the lower-case digit.
    pub fn decode_map(self) -> (map: [u8; 256])
        ensures
            forall|c: u8| #[trigger] map@[c as int] == self.inverse(c),
    {
        let mut map: [u8; 256] = [INVALID; 256];
        let n: u8 = self.size();
        let mut v: u8 = 0;
        while v < n
            invariant
                n == self.radix(),
                v <= n,
                forall|c: u8| #[trigger]
                    map@[c as int] == if self.strict_inverse(c) < v {
                        self.strict_inverse(c)
                    } else {
                        INVALID
                    },
            decreases n - v,
        {
            let c: u8 = self.symbol(v);
            map[c as usize] = v;
            v += 1;
        }
        if self == Alphabet::Hex {
            let mut v: u8 = 10;
            while v < 16
                invariant
                    self == Alphabet::Hex,
                    10 <= v <= 16,
                    forall|c: u8| #[trigger]
                        map@[c as int] == if 97 <= c <= 102 && c - 87 >= v {
                            INVALID
                        } else {
                            self.inverse(c)
                        },
                decreases 16 - v,
            {
                map[(v + 87) as usize] = v;
                v += 1;
            }
        }
        map
    }
}

/// Encoding a group value and decoding the symbol gives the value back, in
/// each of the five alphabets.
pub proof fn lemma_inverse_of_forward(a: Alphabet, v: int)
    requires
        0 <= v < a.radix(),
    ensures
        a.inverse(a.forward(v)) == v,
        a.strict_inverse(a.forward(v)) == v,
{
}

/// A byte that decodes to a group value decodes to one below the radix, and
/// is the symbol of that value; for hex it may also be the lower-case form
/// of that symbol. Every other byte decodes to [`INVALID`].
pub proof fn lemma_forward_of_inverse(a: Alphabet, c: u8)
    requires
        a.is_symbol(c),
    ensures
        0 <= a.inverse(c) < a.radix(),
        a.forward(a.inverse(c) as int) == c || (a == Alphabet::Hex && 97 <= c <= 102
            && a.forward(a.inverse(c) as int) == c - 32),
{
}

/// No symbol of an alphabet is padding or whitespace, so both are told
/// apart from data when decoding.
pub proof fn lemma_symbols_are_visible(a: Alphabet, v: int)
    requires
        0 <= v < a.radix(),
    ensures
        a.forward(v) != PAD,
        !is_whitespace(a.forward(v)),
        a.is_symbol(a.forward(v)),
        !a.is_symbol(PAD),
{
}

} // verus!

//! Logical addresses into the hybrid log.
//!
//! An address is a byte offset into the log. Offset zero is the reserved
//! invalid sentinel, the first record starts at offset 64, and no address
//! exceeds 47 bits.
use vstd::prelude::*;
use vstd::string::StringExecFns;

verus! {

/// Largest address that a record may have (47 bits).
pub const MAX_LOG_ADDRESS: u64 = 0x7fff_ffff_ffff;

/// Raw value of the invalid address.
pub const INVALID_RAW: u64 = 0;

/// Raw value of the first address at which a record can start.
pub const FIRST_VALID_RAW: u64 = 64;

/// Whether `raw` may be held by an `Address`: the invalid sentinel, or an
/// offset in `FIRST_VALID_RAW ..= MAX_LOG_ADDRESS`.
pub open spec fn is_valid_raw(raw: u64) -> bool {
    raw == INVALID_RAW || (FIRST_VALID_RAW <= raw && raw <= MAX_LOG_ADDRESS)
}

/// The decimal digits of `n`, most significant first, without leading zeros.
pub open spec fn decimal_chars(n: nat) -> Seq<char>
    decreases n,
{
    let digit = (('0' as u32) + (n % 10) as u32) as char;
    if n < 10 {
        seq![digit]
    } else {
        decimal_chars(n / 10).push(digit)
    }
}

/// The number that a string of decimal digit characters denotes, most
/// significant digit first.
pub open spec fn decimal_value(digits: Seq<char>) -> int
    decreases digits.len(),
{
    if digits.len() == 0 {
        0
    } else {
        decimal_value(digits.drop_last()) * 10 + (digits.last() as int - '0' as int)
    }
}

/// The decimal text of `n` is made of the characters '0' to '9', starts with
/// a nonzero digit unless it is "0", and denotes `n`.
pub proof fn lemma_decimal_chars(n: nat)
    ensures
        decimal_chars(n).len() >= 1,
        forall|i: int|
            0 <= i < decimal_chars(n).len() ==> '0' <= #[trigger] decimal_chars(n)[i] <= '9',
        n > 0 ==> decimal_chars(n)[0] != '0',
        n == 0 ==> decimal_chars(n) == seq!['0'],
        decimal_value(decimal_chars(n)) == n,
    decreases n,
{
    let digit = (('0' as u32) + (n % 10) as u32) as char;
    assert(digit as int == '0' as int + n % 10);
    if n >= 10 {
        lemma_decimal_chars(n / 10);
        let s = decimal_chars(n / 10).push(digit);
        assert(s.drop_last() =~= decimal_chars(n / 10));
        assert(s[0] == decimal_chars(n / 10)[0]);
        assert(s.last() == digit);
        assert(decimal_value(s) == decimal_value(decimal_chars(n / 10)) * 10 + (digit as int
            - '0' as int));
        assert(n == (n / 10) * 10 + n % 10);
    } else {
        assert(seq![digit].drop_last() =~= Seq::<char>::empty());
        assert(seq![digit].last() == digit);
        assert(decimal_value(Seq::<char>::empty()) == 0);
        assert(decimal_value(seq![digit]) == decimal_value(seq![digit].drop_last()) * 10 + (
        digit as int - '0' as int));
    }
}

/// The one-character text of the decimal digit `d`.
fn digit_str(d: u64) -> (s: &'static str)
    requires
        d < 10,
    ensures
        s@ == seq![(('0' as u32) + d as u32) as char],
{
    proof {
        reveal_strlit("0");
        reveal_strlit("1");
        reveal_strlit("2");
        reveal_strlit("3");
        reveal_strlit("4");
        reveal_strlit("5");
        reveal_strlit("6");
        reveal_strlit("7");
        reveal_strlit("8");
        reveal_strlit("9");
    }
    match d {
        0 => "0",
        1 => "1",
        2 => "2",
        3 => "3",
        4 => "4",
        5 => "5",
        6 => "6",
        7 => "7",
        8 => "8",
        _ => "9",
    }
}

/// Appends the decimal digits of `n` to `s`.
fn append_decimal(s: &mut String, n: u64)
    ensures
        final(s)@ == old(s)@ + decimal_chars(n as nat),
    decreases n,
{
    if n >= 10 {
        append_decimal(s, n / 10);
    }
    s.append(digit_str(n % 10));
    proof {
        assert(s@ =~= old(s)@ + decimal_chars(n as nat));
    }
}

/// A logical address into the log.
#[derive(Clone, Copy, Debug, Hash, PartialEq, Eq, Structural)]
pub struct Address(u64);

impl Address {
    #[verifier::type_invariant]
    spec fn well_formed(self) -> bool {
        is_valid_raw(self.0)
    }

    /// The raw value of this address.
    pub closed spec fn raw(self) -> u64 {
        self.0
    }

    /// The invalid sentinel address.
    pub fn invalid() -> (address: Address)
        ensures
            address.raw() == INVALID_RAW,
    {
        Address(INVALID_RAW)
    }

    /// The first address at which a record can start.
    pub fn first_valid() -> (address: Address)
        ensures
            address.raw() == FIRST_VALID_RAW,
    {
        Address(FIRST_VALID_RAW)
    }

    /// Makes an address from its raw value, which must be the invalid
    /// sentinel or lie in the log's address range.
    pub fn from_raw(raw: u64) -> (address: Address)
        requires
            is_valid_raw(raw),
        ensures
            address.raw() == raw,
    {
        Address(raw)
    }

    /// The raw value of this address.
    pub fn as_raw(self) -> (raw: u64)
        ensures
            raw == self.raw(),
            is_valid_raw(raw),
    {
        proof {
            use_type_invariant(&self);
        }
        self.0
    }

    /// Makes an address from a byte offset into the log.
    pub fn from_offset(offset: usize) -> (address: Address)
        requires
            is_valid_raw(offset as u64),
        ensures
            address.raw() == offset,
    {
        Address(offset as u64)
    }

    /// The byte offset into the log that this address names.
    pub fn as_offset(self) -> (offset: usize)
        requires
            self.raw() <= usize::MAX,
        ensures
            offset == self.raw(),
    {
        self.0 as usize
    }

    /// Whether this is the invalid sentinel.
    pub fn is_invalid(self) -> (b: bool)
        ensures
            b == (self.raw() == INVALID_RAW),
    {
        self.0 == INVALID_RAW
    }

    /// The text that the address displays as: `invalid` for the sentinel,
    /// else `log:` followed by the offset in decimal.
    pub fn to_string(&self) -> (s: String)
        ensures
            self.raw() == INVALID_RAW ==> s@ == "invalid"@,
            self.raw() != INVALID_RAW ==> s@ == "log:"@ + decimal_chars(self.raw() as nat),
    {
        if self.0 == INVALID_RAW {
            String::from_str("invalid")
        } else {
            let mut s = String::from_str("log:");
            append_decimal(&mut s, self.0);
            s
        }
    }
}

impl Default for Address {
    /// The default address is the invalid sentinel.
    fn default() -> (address: Address)
        ensures
            address.raw() == INVALID_RAW,
    {
        Address(INVALID_RAW)
    }
}

} // verus!

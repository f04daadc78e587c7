use vstd::prelude::*;

verus! {

/// The number of hex digits in a transponder address.
pub const ICAO_DIGITS: usize = 6;

/// A 24-bit transponder address, the registry key.
#[derive(Clone, Copy, PartialEq, Eq, Structural, Debug)]
pub struct Icao {
    pub code: u32,
}

impl Icao {
    /// The address fits in 24 bits.
    pub open spec fn wf(self) -> bool {
        self.code < 0x1000000
    }
}

/// Whether a character is a hex digit, upper or lower case.
pub open spec fn is_hex_char(c: char) -> bool {
    ||| '0' <= c <= '9'
    ||| 'a' <= c <= 'f'
    ||| 'A' <= c <= 'F'
}

/// The value of a hex digit character.
pub open spec fn hex_char_val(c: char) -> int {
    if '0' <= c <= '9' {
        c as int - '0' as int
    } else if 'a' <= c <= 'f' {
        c as int - 'a' as int + 10
    } else {
        c as int - 'A' as int + 10
    }
}

/// A well-formed identifier string: exactly six hex digits.
pub open spec fn valid_icao_str(s: Seq<char>) -> bool {
    &&& s.len() == ICAO_DIGITS
    &&& forall|i: int| 0 <= i < s.len() ==> is_hex_char(#[trigger] s[i])
}

/// The address encoded by a sequence of hex digit characters.
pub open spec fn icao_of(s: Seq<char>) -> int
    decreases s.len(),
{
    if s.len() == 0 {
        0
    } else {
        icao_of(s.drop_last()) * 16 + hex_char_val(s.last())
    }
}

/// Sixteen to a small power, used to bound partial parses.
pub open spec fn pow16(n: nat) -> int
    decreases n,
{
    if n == 0 {
        1
    } else {
        16 * pow16((n - 1) as nat)
    }
}

proof fn lemma_pow16_le(m: nat, n: nat)
    requires
        m <= n,
    ensures
        0 < pow16(m) <= pow16(n),
    decreases n,
{
    if m < n {
        lemma_pow16_le(m, (n - 1) as nat);
    } else if n > 0 {
        lemma_pow16_le((n - 1) as nat, (n - 1) as nat);
    }
}

/// A sequence of hex digits encodes a non-negative value below sixteen to
/// its length.
proof fn lemma_icao_of_bound(s: Seq<char>)
    requires
        forall|i: int| 0 <= i < s.len() ==> is_hex_char(#[trigger] s[i]),
    ensures
        0 <= icao_of(s) < pow16(s.len() as nat),
    decreases s.len(),
{
    if s.len() > 0 {
        lemma_icao_of_bound(s.drop_last());
        assert(0 <= hex_char_val(s.last()) < 16);
    }
}

/// The value of one hex digit character, or `None` when the character is not
/// a hex digit.
fn hex_char_value(c: char) -> (r: Option<u32>)
    ensures
        r is Some <==> is_hex_char(c),
        r is Some ==> r->0 == hex_char_val(c) && r->0 < 16,
{
    let cu: u32 = c as u32;
    if 48 <= cu && cu <= 57 {
        Some(cu - 48)
    } else if 97 <= cu && cu <= 102 {
        Some(cu - 97 + 10)
    } else if 65 <= cu && cu <= 70 {
        Some(cu - 65 + 10)
    } else {
        None
    }
}

impl Icao {
    /// Parses an identifier from its textual form: exactly six hex digits,
    /// either case. Malformed input is reported, never a panic.
    pub fn parse(s: &str) -> (r: Option<Icao>)
        ensures
            r is Some <==> valid_icao_str(s@),
            r is Some ==> r->0.code == icao_of(s@) && r->0.wf(),
    {
        let len = s.unicode_len();
        if len != ICAO_DIGITS {
            return None;
        }
        let mut code: u32 = 0;
        let mut i: usize = 0;
        while i < ICAO_DIGITS
            invariant
                0 <= i <= ICAO_DIGITS,
                s@.len() == ICAO_DIGITS,
                forall|j: int| 0 <= j < i ==> is_hex_char(#[trigger] s@[j]),
                code == icao_of(s@.take(i as int)),
                code < pow16(i as nat),
            decreases ICAO_DIGITS - i,
        {
            let c = s.get_char(i);
            match hex_char_value(c) {
                Some(v) => {
                    proof {
                        assert(s@.take(i + 1).drop_last() =~= s@.take(i as int));
                        assert(s@.take(i + 1).last() == s@[i as int]);
                        lemma_pow16_le((i + 1) as nat, 6nat);
                        reveal_with_fuel(pow16, 7);
                        assert(pow16(6nat) == 0x1000000);
                    }
                    code = code * 16 + v;
                    i = i + 1;
                }
                None => {
                    return None;
                }
            }
        }
        proof {
            assert(s@.take(ICAO_DIGITS as int) =~= s@);
            reveal_with_fuel(pow16, 7);
            assert(pow16(6nat) == 0x1000000);
        }
        Some(Icao { code })
    }
}

} // verus!

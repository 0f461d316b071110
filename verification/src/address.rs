//! Network addresses parsed from their textual literals: dotted-decimal
//! for the four-byte form, colon-separated hexadecimal groups for the
//! eight-group form.  Classification into loopback, private and global
//! ranges follows the standard reserved-range definitions.

use vstd::prelude::*;

use crate::text::split_on;
use crate::text::views_of;
use crate::text::split_char;

verus! {

/// A network address: either four decimal-denoted bytes or eight
/// hexadecimal-denoted sixteen-bit groups.
#[derive(Clone, Copy, Debug, PartialEq, Eq, Structural)]
pub enum Address {
    V4(u8, u8, u8, u8),
    V6(u16, u16, u16, u16, u16, u16, u16, u16),
}

/// The error returned when a textual literal conforms to neither
/// address grammar.
#[derive(Clone, Copy, Debug, PartialEq, Eq, Structural)]
pub struct AddressParseError;

impl Address {
    /// Whether the address designates the local host itself: the
    /// 127.0.0.0/8 block, or the all-zero-but-last-one group form.
    pub open spec fn spec_is_loopback(self) -> bool {
        match self {
            Address::V4(a, _b, _c, _d) => a == 127,
            Address::V6(g0, g1, g2, g3, g4, g5, g6, g7) => g0 == 0 && g1 == 0 && g2 == 0 && g3
                == 0 && g4 == 0 && g5 == 0 && g6 == 0 && g7 == 1,
        }
    }

    /// Whether the address lies in a range reserved for private
    /// networks: 10.0.0.0/8, 172.16.0.0/12 or 192.168.0.0/16 for the
    /// four-byte form, the unique-local fc00::/7 block for the
    /// eight-group form.
    pub open spec fn spec_is_private(self) -> bool {
        match self {
            Address::V4(a, b, _c, _d) => a == 10 || (a == 172 && 16 <= b <= 31) || (a == 192 && b
                == 168),
            Address::V6(g0, _g1, _g2, _g3, _g4, _g5, _g6, _g7) => 0xfc00 <= g0 <= 0xfdff,
        }
    }

    /// Whether the address is global: neither loopback nor private.
    pub open spec fn spec_is_global(self) -> bool {
        !self.spec_is_loopback() && !self.spec_is_private()
    }

    pub fn is_loopback(&self) -> (r: bool)
        ensures
            r == self.spec_is_loopback(),
    {
        match *self {
            Address::V4(a, _b, _c, _d) => a == 127,
            Address::V6(g0, g1, g2, g3, g4, g5, g6, g7) => g0 == 0 && g1 == 0 && g2 == 0 && g3
                == 0 && g4 == 0 && g5 == 0 && g6 == 0 && g7 == 1,
        }
    }

    pub fn is_private(&self) -> (r: bool)
        ensures
            r == self.spec_is_private(),
    {
        match *self {
            Address::V4(a, b, _c, _d) => a == 10 || (a == 172 && 16 <= b && b <= 31) || (a == 192
                && b == 168),
            Address::V6(g0, _g1, _g2, _g3, _g4, _g5, _g6, _g7) => 0xfc00 <= g0 && g0 <= 0xfdff,
        }
    }

    pub fn is_global(&self) -> (r: bool)
        ensures
            r == self.spec_is_global(),
    {
        !self.is_loopback() && !self.is_private()
    }

    /// Whether the address may head a static record: it designates the
    /// local host or lies in a private range.
    pub fn is_acceptable(&self) -> (r: bool)
        ensures
            r == spec_acceptable(*self),
    {
        self.is_loopback() || self.is_private()
    }
}

/// Whether `addr` may head a static record: it designates the local
/// host or lies in a private range.
pub open spec fn spec_acceptable(addr: Address) -> bool {
    addr.spec_is_loopback() || addr.spec_is_private()
}

/// Whether `c` is a decimal digit.
pub open spec fn is_digit(c: char) -> bool {
    '0' <= c <= '9'
}

/// The numeric value of a decimal digit.
pub open spec fn digit_val(c: char) -> int {
    c as int - '0' as int
}

/// Whether `c` is a hexadecimal digit, in either letter case.
pub open spec fn is_hex_digit(c: char) -> bool {
    is_digit(c) || 'a' <= c <= 'f' || 'A' <= c <= 'F'
}

/// The numeric value of a hexadecimal digit.
pub open spec fn hex_digit_val(c: char) -> int {
    if is_digit(c) {
        digit_val(c)
    } else if 'a' <= c <= 'f' {
        c as int - 'a' as int + 10
    } else {
        c as int - 'A' as int + 10
    }
}

/// The value of `s` read as a decimal numeral.
pub open spec fn dec_val(s: Seq<char>) -> int
    decreases s.len(),
{
    if s.len() == 0 {
        0
    } else {
        dec_val(s.drop_last()) * 10 + digit_val(s.last())
    }
}

/// The value of `s` read as a hexadecimal numeral.
pub open spec fn hex_val(s: Seq<char>) -> int
    decreases s.len(),
{
    if s.len() == 0 {
        0
    } else {
        hex_val(s.drop_last()) * 16 + hex_digit_val(s.last())
    }
}

/// Whether `s` is a valid byte part of a dotted-decimal literal: one to
/// three decimal digits, no superfluous leading zero, value at most 255.
pub open spec fn is_octet(s: Seq<char>) -> bool {
    &&& 1 <= s.len() <= 3
    &&& forall|i: int| 0 <= i < s.len() ==> is_digit(#[trigger] s[i])
    &&& (s.len() > 1 ==> s[0] != '0')
    &&& dec_val(s) <= 255
}

/// Whether `s` is a valid group of a colon-separated hexadecimal
/// literal: one to four hexadecimal digits.
pub open spec fn is_group(s: Seq<char>) -> bool {
    &&& 1 <= s.len() <= 4
    &&& forall|i: int| 0 <= i < s.len() ==> is_hex_digit(#[trigger] s[i])
}

/// The numeric value of a decimal digit character.
fn digit_of(c: char) -> (d: u32)
    requires
        is_digit(c),
    ensures
        d as int == digit_val(c),
        d <= 9,
{
    (c as u32) - ('0' as u32)
}

/// The numeric value of a hexadecimal digit character.
fn hex_digit_of(c: char) -> (d: u32)
    requires
        is_hex_digit(c),
    ensures
        d as int == hex_digit_val(c),
        d <= 15,
{
    if '0' <= c && c <= '9' {
        (c as u32) - ('0' as u32)
    } else if 'a' <= c && c <= 'f' {
        (c as u32) - ('a' as u32) + 10
    } else {
        (c as u32) - ('A' as u32) + 10
    }
}

/// A decimal numeral of digits alone is non-negative and bounded by a
/// power of ten in its length.
pub proof fn lemma_dec_val_bound(s: Seq<char>)
    requires
        forall|i: int| 0 <= i < s.len() ==> is_digit(#[trigger] s[i]),
    ensures
        0 <= dec_val(s),
        s.len() <= 1 ==> dec_val(s) < 10,
        s.len() <= 2 ==> dec_val(s) < 100,
        s.len() <= 3 ==> dec_val(s) < 1000,
    decreases s.len(),
{
    if s.len() > 0 {
        assert(forall|i: int|
            0 <= i < s.drop_last().len() ==> is_digit(#[trigger] s.drop_last()[i]));
        lemma_dec_val_bound(s.drop_last());
    }
}

/// A hexadecimal numeral of digits alone is non-negative and bounded by
/// a power of sixteen in its length.
pub proof fn lemma_hex_val_bound(s: Seq<char>)
    requires
        forall|i: int| 0 <= i < s.len() ==> is_hex_digit(#[trigger] s[i]),
    ensures
        0 <= hex_val(s),
        s.len() <= 1 ==> hex_val(s) < 0x10,
        s.len() <= 2 ==> hex_val(s) < 0x100,
        s.len() <= 3 ==> hex_val(s) < 0x1000,
        s.len() <= 4 ==> hex_val(s) < 0x10000,
    decreases s.len(),
{
    if s.len() > 0 {
        assert(forall|i: int|
            0 <= i < s.drop_last().len() ==> is_hex_digit(#[trigger] s.drop_last()[i]));
        lemma_hex_val_bound(s.drop_last());
    }
}

/// Reads `s` as a byte part of a dotted-decimal literal.  Returns its
/// value exactly when `s` conforms to the part grammar.
pub fn parse_octet(s: &str) -> (r: Option<u8>)
    ensures
        match r {
            Some(v) => is_octet(s@) && v as int == dec_val(s@),
            None => !is_octet(s@),
        },
{
    let n = s.unicode_len();
    if n == 0 || n > 3 {
        return None;
    }
    if n > 1 && s.get_char(0) == '0' {
        return None;
    }
    let mut val: u32 = 0;
    let mut i: usize = 0;
    proof {
        assert(s@.subrange(0, 0) =~= Seq::<char>::empty());
    }
    while i < n
        invariant
            i <= n,
            n == s@.len(),
            1 <= n <= 3,
            forall|j: int| 0 <= j < i ==> is_digit(#[trigger] s@[j]),
            val as int == dec_val(s@.subrange(0, i as int)),
        decreases n - i,
    {
        let c = s.get_char(i);
        if !('0' <= c && c <= '9') {
            return None;
        }
        proof {
            lemma_dec_val_bound(s@.subrange(0, i as int));
            assert(s@.subrange(0, i + 1).drop_last() =~= s@.subrange(0, i as int));
            assert(s@.subrange(0, i + 1).last() == s@[i as int]);
        }
        val = val * 10 + digit_of(c);
        i += 1;
    }
    proof {
        assert(s@.subrange(0, n as int) =~= s@);
    }
    if val > 255 {
        return None;
    }
    Some(val as u8)
}

/// Reads `s` as a group of a colon-separated hexadecimal literal.
/// Returns its value exactly when `s` conforms to the group grammar.
pub fn parse_group(s: &str) -> (r: Option<u16>)
    ensures
        match r {
            Some(v) => is_group(s@) && v as int == hex_val(s@),
            None => !is_group(s@),
        },
{
    let n = s.unicode_len();
    if n == 0 || n > 4 {
        return None;
    }
    let mut val: u32 = 0;
    let mut i: usize = 0;
    proof {
        assert(s@.subrange(0, 0) =~= Seq::<char>::empty());
    }
    while i < n
        invariant
            i <= n,
            n == s@.len(),
            1 <= n <= 4,
            forall|j: int| 0 <= j < i ==> is_hex_digit(#[trigger] s@[j]),
            val as int == hex_val(s@.subrange(0, i as int)),
        decreases n - i,
    {
        let c = s.get_char(i);
        if !(('0' <= c && c <= '9') || ('a' <= c && c <= 'f') || ('A' <= c && c <= 'F')) {
            return None;
        }
        proof {
            lemma_hex_val_bound(s@.subrange(0, i as int));
            assert(s@.subrange(0, i + 1).drop_last() =~= s@.subrange(0, i as int));
            assert(s@.subrange(0, i + 1).last() == s@[i as int]);
        }
        val = val * 16 + hex_digit_of(c);
        i += 1;
    }
    proof {
        assert(s@.subrange(0, n as int) =~= s@);
        lemma_hex_val_bound(s@);
    }
    Some(val as u16)
}

/// The dotted-decimal literal grammar: exactly four valid byte parts
/// separated by single dots.
pub open spec fn spec_parse_ipv4(s: Seq<char>) -> Option<Address> {
    let parts = split_on(s, '.');
    if parts.len() == 4 && is_octet(parts[0]) && is_octet(parts[1]) && is_octet(parts[2])
        && is_octet(parts[3]) {
        Some(
            Address::V4(
                dec_val(parts[0]) as u8,
                dec_val(parts[1]) as u8,
                dec_val(parts[2]) as u8,
                dec_val(parts[3]) as u8,
            ),
        )
    } else {
        None
    }
}

/// Reads `s` as a dotted-decimal literal.
pub fn parse_ipv4_literal(s: &str) -> (r: Option<Address>)
    ensures
        r == spec_parse_ipv4(s@),
{
    let parts = split_char(s, '.');
    let ghost pv = views_of(parts@);
    if parts.len() != 4 {
        return None;
    }
    proof {
        assert(pv[0] == parts@[0]@ && pv[1] == parts@[1]@ && pv[2] == parts@[2]@ && pv[3]
            == parts@[3]@);
    }
    let a = match parse_octet(parts[0].as_str()) {
        Some(v) => v,
        None => { return None },
    };
    let b = match parse_octet(parts[1].as_str()) {
        Some(v) => v,
        None => { return None },
    };
    let c = match parse_octet(parts[2].as_str()) {
        Some(v) => v,
        None => { return None },
    };
    let d = match parse_octet(parts[3].as_str()) {
        Some(v) => v,
        None => { return None },
    };
    Some(Address::V4(a, b, c, d))
}

/// The index of the first occurrence of two adjacent colons in `s`, or
/// -1 when there is none.
pub open spec fn first_double_colon(s: Seq<char>) -> int
    decreases s.len(),
{
    if s.len() < 2 {
        -1
    } else if s[0] == ':' && s[1] == ':' {
        0
    } else if first_double_colon(s.drop_first()) < 0 {
        -1
    } else {
        first_double_colon(s.drop_first()) + 1
    }
}

proof fn lemma_first_double_colon_props(s: Seq<char>)
    ensures
        first_double_colon(s) >= 0 ==> first_double_colon(s) + 1 < s.len() && s[first_double_colon(
            s,
        )] == ':' && s[first_double_colon(s) + 1] == ':',
    decreases s.len(),
{
    if s.len() < 2 {
    } else if s[0] == ':' && s[1] == ':' {
    } else {
        lemma_first_double_colon_props(s.drop_first());
    }
}

proof fn lemma_first_double_colon_at(s: Seq<char>, i: int)
    requires
        0 <= i,
        i + 1 < s.len(),
        s[i] == ':',
        s[i + 1] == ':',
        forall|j: int| 0 <= j < i ==> !(#[trigger] s[j] == ':' && s[j + 1] == ':'),
    ensures
        first_double_colon(s) == i,
    decreases i,
{
    if i == 0 {
    } else {
        assert(!(s[0] == ':' && s[1] == ':'));
        let t = s.drop_first();
        assert(forall|j: int| 0 <= j < i - 1 ==> !(#[trigger] t[j] == ':' && t[j + 1] == ':'));
        lemma_first_double_colon_at(t, i - 1);
    }
}

proof fn lemma_first_double_colon_none(s: Seq<char>)
    requires
        forall|j: int| 0 <= j && j + 1 < s.len() ==> !(#[trigger] s[j] == ':' && s[j + 1] == ':'),
    ensures
        first_double_colon(s) == -1,
    decreases s.len(),
{
    if s.len() < 2 {
    } else {
        assert(!(s[0] == ':' && s[1] == ':'));
        let t = s.drop_first();
        assert(forall|j: int| 0 <= j && j + 1 < t.len() ==> !(#[trigger] t[j] == ':' && t[j + 1]
            == ':'));
        lemma_first_double_colon_none(t);
    }
}

/// Finds the first occurrence of two adjacent colons in `s`.
fn find_double_colon(s: &str) -> (r: Option<usize>)
    ensures
        match r {
            Some(i) => first_double_colon(s@) == i as int,
            None => first_double_colon(s@) == -1,
        },
{
    let n = s.unicode_len();
    if n < 2 {
        proof {
            lemma_first_double_colon_none(s@);
        }
        return None;
    }
    let mut i: usize = 0;
    while i < n - 1
        invariant
            i <= n,
            2 <= n == s@.len(),
            forall|j: int| 0 <= j < i ==> !(#[trigger] s@[j] == ':' && s@[j + 1] == ':'),
        decreases n - i,
    {
        if s.get_char(i) == ':' && s.get_char(i + 1) == ':' {
            proof {
                lemma_first_double_colon_at(s@, i as int);
            }
            return Some(i);
        }
        i += 1;
    }
    proof {
        lemma_first_double_colon_none(s@);
    }
    None
}

/// The strict group-list grammar: valid hexadecimal groups separated by
/// single colons, with no empty part.
pub open spec fn groups_of(s: Seq<char>) -> Option<Seq<u16>> {
    let parts = split_on(s, ':');
    if forall|i: int| 0 <= i < parts.len() ==> is_group(#[trigger] parts[i]) {
        Some(parts.map_values(|g: Seq<char>| hex_val(g) as u16))
    } else {
        None
    }
}

/// Reads `s` as a strict colon-separated list of hexadecimal groups.
fn parse_groups(s: &str) -> (r: Option<Vec<u16>>)
    ensures
        match r {
            Some(v) => groups_of(s@) == Some(v@),
            None => groups_of(s@) is None,
        },
{
    let parts = split_char(s, ':');
    let ghost pv = views_of(parts@);
    let n = parts.len();
    let mut out: Vec<u16> = Vec::new();
    let mut i: usize = 0;
    proof {
        assert(out@ =~= pv.subrange(0, 0).map_values(|g: Seq<char>| hex_val(g) as u16));
    }
    while i < n
        invariant
            i <= n,
            n == parts@.len(),
            pv == views_of(parts@),
            pv == split_on(s@, ':'),
            forall|j: int| 0 <= j < i ==> is_group(#[trigger] pv[j]),
            out@ == pv.subrange(0, i as int).map_values(|g: Seq<char>| hex_val(g) as u16),
        decreases n - i,
    {
        match parse_group(parts[i].as_str()) {
            Some(v) => {
                out.push(v);
                proof {
                    assert(pv.subrange(0, i + 1) =~= pv.subrange(0, i as int).push(pv[i as int]));
                    assert(out@ =~= pv.subrange(0, i + 1).map_values(
                        |g: Seq<char>| hex_val(g) as u16,
                    ));
                }
            },
            None => {
                proof {
                    assert(!is_group(pv[i as int]));
                }
                return None;
            },
        }
        i += 1;
    }
    proof {
        assert(pv.subrange(0, n as int) =~= pv);
    }
    Some(out)
}

/// A run of zero-valued groups.
pub open spec fn zero_groups(n: int) -> Seq<u16> {
    Seq::new(n as nat, |j: int| 0u16)
}

/// The address whose eight groups are `g`.
pub open spec fn address_of_groups(g: Seq<u16>) -> Address {
    Address::V6(g[0], g[1], g[2], g[3], g[4], g[5], g[6], g[7])
}

/// The colon-separated hexadecimal literal grammar: either exactly
/// eight groups, or one double colon standing for at least one omitted
/// zero group, with strict group lists on either side of it.
pub open spec fn spec_parse_ipv6(s: Seq<char>) -> Option<Address> {
    let dc = first_double_colon(s);
    if dc < 0 {
        match groups_of(s) {
            Some(g) => if g.len() == 8 {
                Some(address_of_groups(g))
            } else {
                None
            },
            None => None,
        }
    } else {
        let left = s.subrange(0, dc);
        let right = s.subrange(dc + 2, s.len() as int);
        let lg = if left.len() == 0 {
            Some(Seq::<u16>::empty())
        } else {
            groups_of(left)
        };
        let rg = if right.len() == 0 {
            Some(Seq::<u16>::empty())
        } else {
            groups_of(right)
        };
        match (lg, rg) {
            (Some(a), Some(b)) => if a.len() + b.len() <= 7 {
                Some(address_of_groups(a + zero_groups(8 - a.len() - b.len()) + b))
            } else {
                None
            },
            _ => None,
        }
    }
}

/// Reads `s` as a colon-separated hexadecimal literal.
pub fn parse_ipv6_literal(s: &str) -> (r: Option<Address>)
    ensures
        r == spec_parse_ipv6(s@),
{
    let n = s.unicode_len();
    let dc = find_double_colon(s);
    match dc {
        None => {
            match parse_groups(s) {
                Some(g) => {
                    if g.len() == 8 {
                        Some(Address::V6(g[0], g[1], g[2], g[3], g[4], g[5], g[6], g[7]))
                    } else {
                        None
                    }
                },
                None => None,
            }
        },
        Some(i) => {
            proof {
                lemma_first_double_colon_props(s@);
            }
            let left = s.substring_char(0, i);
            let right = s.substring_char(i + 2, n);
            let lg: Vec<u16> = if left.unicode_len() == 0 {
                Vec::new()
            } else {
                match parse_groups(left) {
                    Some(v) => v,
                    None => { return None },
                }
            };
            let rg: Vec<u16> = if right.unicode_len() == 0 {
                Vec::new()
            } else {
                match parse_groups(right) {
                    Some(v) => v,
                    None => { return None },
                }
            };
            if lg.len() > 7 || rg.len() > 7 - lg.len() {
                return None;
            }
            let fill = 8 - lg.len() - rg.len();
            let mut groups: Vec<u16> = Vec::new();
            let mut k: usize = 0;
            while k < lg.len()
                invariant
                    k <= lg@.len(),
                    groups@ == lg@.subrange(0, k as int),
                decreases lg@.len() - k,
            {
                groups.push(lg[k]);
                proof {
                    assert(groups@ =~= lg@.subrange(0, k + 1));
                }
                k += 1;
            }
            proof {
                assert(lg@.subrange(0, lg@.len() as int) =~= lg@);
            }
            let mut j: usize = 0;
            while j < fill
                invariant
                    j <= fill,
                    groups@ == lg@ + zero_groups(j as int),
                decreases fill - j,
            {
                groups.push(0);
                proof {
                    assert(groups@ =~= lg@ + zero_groups(j + 1));
                }
                j += 1;
            }
            let mut m: usize = 0;
            while m < rg.len()
                invariant
                    m <= rg@.len(),
                    groups@ == lg@ + zero_groups(fill as int) + rg@.subrange(0, m as int),
                decreases rg@.len() - m,
            {
                groups.push(rg[m]);
                proof {
                    assert(groups@ =~= lg@ + zero_groups(fill as int) + rg@.subrange(0, m + 1));
                }
                m += 1;
            }
            proof {
                assert(rg@.subrange(0, rg@.len() as int) =~= rg@);
                assert(groups@ == lg@ + zero_groups(fill as int) + rg@);
            }
            Some(
                Address::V6(
                    groups[0],
                    groups[1],
                    groups[2],
                    groups[3],
                    groups[4],
                    groups[5],
                    groups[6],
                    groups[7],
                ),
            )
        },
    }
}

/// The textual address grammar: a dotted-decimal literal, or else a
/// colon-separated hexadecimal literal.
pub open spec fn spec_parse_address(s: Seq<char>) -> Option<Address> {
    if spec_parse_ipv4(s) is Some {
        spec_parse_ipv4(s)
    } else {
        spec_parse_ipv6(s)
    }
}

/// The character of a decimal digit value.
pub open spec fn dec_digit_char(n: int) -> char {
    if n == 0 {
        '0'
    } else if n == 1 {
        '1'
    } else if n == 2 {
        '2'
    } else if n == 3 {
        '3'
    } else if n == 4 {
        '4'
    } else if n == 5 {
        '5'
    } else if n == 6 {
        '6'
    } else if n == 7 {
        '7'
    } else if n == 8 {
        '8'
    } else {
        '9'
    }
}

/// The character of a hexadecimal digit value, in lower case.
pub open spec fn hex_digit_char(n: int) -> char {
    if n < 10 {
        dec_digit_char(n)
    } else if n == 10 {
        'a'
    } else if n == 11 {
        'b'
    } else if n == 12 {
        'c'
    } else if n == 13 {
        'd'
    } else if n == 14 {
        'e'
    } else {
        'f'
    }
}

/// The decimal numeral of `n`, without superfluous leading zeros.
pub open spec fn dec_str(n: int) -> Seq<char>
    decreases n,
{
    if n < 10 {
        seq![dec_digit_char(n)]
    } else {
        dec_str(n / 10).push(dec_digit_char(n % 10))
    }
}

/// The hexadecimal numeral of `n`, in lower case, without superfluous
/// leading zeros.
pub open spec fn hex_str(n: int) -> Seq<char>
    decreases n,
{
    if n < 16 {
        seq![hex_digit_char(n)]
    } else {
        hex_str(n / 16).push(hex_digit_char(n % 16))
    }
}

fn dec_digit_char_of(n: u32) -> (c: char)
    requires
        n < 10,
    ensures
        c == dec_digit_char(n as int),
{
    if n == 0 {
        '0'
    } else if n == 1 {
        '1'
    } else if n == 2 {
        '2'
    } else if n == 3 {
        '3'
    } else if n == 4 {
        '4'
    } else if n == 5 {
        '5'
    } else if n == 6 {
        '6'
    } else if n == 7 {
        '7'
    } else if n == 8 {
        '8'
    } else {
        '9'
    }
}

fn hex_digit_char_of(n: u32) -> (c: char)
    requires
        n < 16,
    ensures
        c == hex_digit_char(n as int),
{
    if n < 10 {
        dec_digit_char_of(n)
    } else if n == 10 {
        'a'
    } else if n == 11 {
        'b'
    } else if n == 12 {
        'c'
    } else if n == 13 {
        'd'
    } else if n == 14 {
        'e'
    } else {
        'f'
    }
}

/// Appends the decimal numeral of `n` to `out`.
fn push_dec(out: &mut String, n: u32)
    ensures
        final(out)@ == old(out)@ + dec_str(n as int),
    decreases n,
{
    if n < 10 {
        crate::text::push_char(out, dec_digit_char_of(n));
        proof {
            assert(out@ =~= old(out)@ + dec_str(n as int));
        }
    } else {
        push_dec(out, n / 10);
        crate::text::push_char(out, dec_digit_char_of(n % 10));
        proof {
            assert(out@ =~= old(out)@ + dec_str(n as int));
        }
    }
}

/// Appends the hexadecimal numeral of `n` to `out`.
fn push_hex(out: &mut String, n: u32)
    ensures
        final(out)@ == old(out)@ + hex_str(n as int),
    decreases n,
{
    if n < 16 {
        crate::text::push_char(out, hex_digit_char_of(n));
        proof {
            assert(out@ =~= old(out)@ + hex_str(n as int));
        }
    } else {
        push_hex(out, n / 16);
        crate::text::push_char(out, hex_digit_char_of(n % 16));
        proof {
            assert(out@ =~= old(out)@ + hex_str(n as int));
        }
    }
}

/// The canonical text of an address: dotted decimal for the four-byte
/// form, eight lower-case hexadecimal groups joined by colons for the
/// eight-group form.
pub open spec fn spec_address_text(a: Address) -> Seq<char> {
    match a {
        Address::V4(x, y, z, w) => dec_str(x as int) + seq!['.'] + dec_str(y as int) + seq!['.']
            + dec_str(z as int) + seq!['.'] + dec_str(w as int),
        Address::V6(g0, g1, g2, g3, g4, g5, g6, g7) => hex_str(g0 as int) + seq![':'] + hex_str(
            g1 as int,
        ) + seq![':'] + hex_str(g2 as int) + seq![':'] + hex_str(g3 as int) + seq![':'] + hex_str(
            g4 as int,
        ) + seq![':'] + hex_str(g5 as int) + seq![':'] + hex_str(g6 as int) + seq![':'] + hex_str(
            g7 as int,
        ),
    }
}

impl Address {
    /// The canonical textual form of the address.
    pub fn text(&self) -> (r: String)
        ensures
            r@ == spec_address_text(*self),
    {
        let mut out: String = String::new();
        match *self {
            Address::V4(x, y, z, w) => {
                push_dec(&mut out, x as u32);
                crate::text::push_char(&mut out, '.');
                push_dec(&mut out, y as u32);
                crate::text::push_char(&mut out, '.');
                push_dec(&mut out, z as u32);
                crate::text::push_char(&mut out, '.');
                push_dec(&mut out, w as u32);
                proof {
                    assert(out@ =~= spec_address_text(*self));
                }
            },
            Address::V6(g0, g1, g2, g3, g4, g5, g6, g7) => {
                push_hex(&mut out, g0 as u32);
                crate::text::push_char(&mut out, ':');
                push_hex(&mut out, g1 as u32);
                crate::text::push_char(&mut out, ':');
                push_hex(&mut out, g2 as u32);
                crate::text::push_char(&mut out, ':');
                push_hex(&mut out, g3 as u32);
                crate::text::push_char(&mut out, ':');
                push_hex(&mut out, g4 as u32);
                crate::text::push_char(&mut out, ':');
                push_hex(&mut out, g5 as u32);
                crate::text::push_char(&mut out, ':');
                push_hex(&mut out, g6 as u32);
                crate::text::push_char(&mut out, ':');
                push_hex(&mut out, g7 as u32);
                proof {
                    assert(out@ =~= spec_address_text(*self));
                }
            },
        }
        out
    }

    /// Parses a textual address literal in either grammar.  Succeeds
    /// exactly on conforming literals.
    pub fn parse(s: &str) -> (r: Result<Address, AddressParseError>)
        ensures
            match r {
                Ok(a) => spec_parse_address(s@) == Some(a),
                Err(_) => spec_parse_address(s@) is None,
            },
    {
        if let Some(a) = parse_ipv4_literal(s) {
            return Ok(a);
        }
        if let Some(a) = parse_ipv6_literal(s) {
            return Ok(a);
        }
        Err(AddressParseError)
    }
}

} // verus!

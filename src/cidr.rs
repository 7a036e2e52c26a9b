//! CIDR blocks and their address families.
pub mod tree;

use vstd::prelude::*;
use vstd::string::*;

verus! {

/// An address family.
#[derive(Debug, PartialEq, Eq, Structural, Clone, Copy)]
pub enum Protocol {
    IPv4,
    IPv6,
}

impl Protocol {
    /// The number of bits of an address of this family.
    pub open spec fn width(self) -> nat {
        match self {
            Protocol::IPv4 => 32,
            Protocol::IPv6 => 128,
        }
    }

    pub fn len(&self) -> (r: usize)
        ensures
            r as nat == self.width(),
    {
        match self {
            Protocol::IPv4 => 32,
            Protocol::IPv6 => 128,
        }
    }
}

/// A block of addresses: those whose leading `bits` bits are the leading
/// `bits` bits of `address`. An IPv4 address sits in the low 32 bits.
#[derive(Debug, PartialEq, Eq, Structural, Clone, Copy)]
pub struct Cidr {
    pub protocol: Protocol,
    pub address: u128,
    pub bits: usize,
}

/// Bit `k` of `a`, counting from the least significant bit.
pub open spec fn bit_of(a: u128, k: u128) -> bool {
    (a >> k) & 1u128 == 1u128
}

/// `x` starts with `p`.
pub open spec fn has_prefix(x: Seq<bool>, p: Seq<bool>) -> bool {
    p.len() <= x.len() && forall|i: int| 0 <= i < p.len() ==> x[i] == p[i]
}

/// The number of bits in the common address space of both families.
pub const ADDRESS_BITS: usize = 128;

impl Cidr {
    /// The prefix length fits the family.
    pub open spec fn wf(self) -> bool {
        self.bits as nat <= self.protocol.width()
    }

    /// The leading `bits` bits of the address, most significant first.
    pub open spec fn prefix(self) -> Seq<bool> {
        Seq::new(
            self.bits as nat,
            |i: int| bit_of(self.address, (self.protocol.width() - 1 - i) as u128),
        )
    }

    /// The bits of the address below the prefix are zero, and an IPv4
    /// address fits in 32 bits.
    pub open spec fn aligned(self) -> bool {
        &&& forall|k: u128| k < self.protocol.width() - self.bits ==> !#[trigger] bit_of(self.address, k)
        &&& self.protocol == Protocol::IPv4 ==> self.address >> 32u128 == 0
    }

    /// The block one bit shorter that holds this one.
    pub open spec fn widened(self) -> Cidr {
        Cidr { protocol: self.protocol, address: self.address, bits: (self.bits - 1) as usize }
    }

    /// The addresses of the block, each as its 128 bits, most significant first:
    /// an IPv4 address takes the leading 32 of them.
    pub open spec fn block(self) -> Set<Seq<bool>> {
        Set::new(|x: Seq<bool>| x.len() == ADDRESS_BITS && has_prefix(x, self.prefix()))
    }
}

proof fn lemma_bits_equal(a: u128, b: u128, j: u128)
    requires
        j < 128,
        forall|k: u128| j <= k < 128 ==> #[trigger] bit_of(a, k) == bit_of(b, k),
    ensures
        a >> j == b >> j,
    decreases 128 - j,
{
    assert(bit_of(a, j) == bit_of(b, j));
    if j == 127 {
        assert(bit_of(a, 127) == bit_of(b, 127) ==> a >> 127u128 == b >> 127u128) by (bit_vector);
    } else {
        lemma_bits_equal(a, b, (j + 1) as u128);
        assert(a >> j == b >> j) by (bit_vector)
            requires
                j < 127,
                a >> ((j + 1) as u128) == b >> ((j + 1) as u128),
                ((a >> j) & 1u128 == 1u128) == ((b >> j) & 1u128 == 1u128),
        ;
    }
}

/// Two aligned blocks of one family with the same prefix are the same value.
pub proof fn lemma_block_determined(a: Cidr, b: Cidr)
    requires
        a.wf(),
        b.wf(),
        a.aligned(),
        b.aligned(),
        a.protocol == b.protocol,
        a.prefix() == b.prefix(),
    ensures
        a == b,
{
    let w = a.protocol.width();
    assert(a.prefix().len() == a.bits && b.prefix().len() == b.bits);
    assert(a.bits == b.bits);
    assert forall|k: u128| 0 <= k < 128 implies #[trigger] bit_of(a.address, k) == bit_of(b.address, k) by {
        if k >= w {
            assert(a.protocol == Protocol::IPv4);
            let (x, y) = (a.address, b.address);
            assert(x >> 32u128 == 0 && 32 <= k < 128 ==> !bit_of(x, k)) by (bit_vector);
            assert(y >> 32u128 == 0 && 32 <= k < 128 ==> !bit_of(y, k)) by (bit_vector);
        } else if k >= w - a.bits {
            let i = w - 1 - k;
            assert(0 <= i < a.bits);
            assert(a.prefix()[i] == bit_of(a.address, k));
            assert(b.prefix()[i] == bit_of(b.address, k));
            assert(a.prefix()[i] == b.prefix()[i]);
        } else {
            assert(!bit_of(a.address, k));
            assert(!bit_of(b.address, k));
        }
    }
    let (x, y) = (a.address, b.address);
    lemma_bits_equal(x, y, 0);
    assert(x >> 0u128 == x && y >> 0u128 == y) by (bit_vector);
}

/// Why a text is not a CIDR block.
#[derive(Debug, PartialEq, Eq, Structural, Clone, Copy)]
pub enum ParseError {
    /// A number of the text is malformed or out of range.
    FailedToParseInt,
    /// The text does not have the shape of a CIDR block.
    FailedToParseCidr,
    /// The text holds neither `.` nor `:`.
    FailedToDetectIpVersion,
}

/// The pieces of `s` between occurrences of `sep`.
pub open spec fn fields(s: Seq<u8>, sep: u8) -> Seq<Seq<u8>>
    decreases s.len(),
{
    if s.len() == 0 {
        seq![Seq::<u8>::empty()]
    } else {
        let f = fields(s.drop_last(), sep);
        if s.last() == sep {
            f.push(Seq::<u8>::empty())
        } else {
            f.update(f.len() - 1, f.last().push(s.last()))
        }
    }
}

pub open spec fn is_digit(c: u8) -> bool {
    48 <= c <= 57
}

/// The value of a string of decimal digits.
pub open spec fn dec_value(s: Seq<u8>) -> nat
    decreases s.len(),
{
    if s.len() == 0 {
        0
    } else {
        dec_value(s.drop_last()) * 10 + (s.last() - 48) as nat
    }
}

/// `s` is a decimal number no larger than `max`.
pub open spec fn dec_within(s: Seq<u8>, max: nat) -> bool {
    s.len() > 0 && (forall|i: int| 0 <= i < s.len() ==> is_digit(#[trigger] s[i])) && dec_value(s) <= max
}

proof fn lemma_dec_grows(s: Seq<u8>, k: int)
    requires
        0 <= k <= s.len(),
        forall|i: int| 0 <= i < s.len() ==> is_digit(#[trigger] s[i]),
    ensures
        dec_value(s.subrange(0, k)) <= dec_value(s),
    decreases s.len() - k,
{
    if k < s.len() {
        lemma_dec_grows(s, k + 1);
        let t = s.subrange(0, k + 1);
        assert(t.drop_last() =~= s.subrange(0, k));
    } else {
        assert(s.subrange(0, k) =~= s);
    }
}

/// The positions of the pieces of `s[lo..hi]` between occurrences of `sep`.
fn split_fields(s: &[u8], lo: usize, hi: usize, sep: u8) -> (r: Vec<(usize, usize)>)
    requires
        lo <= hi <= s@.len(),
    ensures
        r@.len() == fields(s@.subrange(lo as int, hi as int), sep).len(),
        forall|k: int|
            0 <= k < r@.len() ==> lo <= (#[trigger] r@[k]).0 <= r@[k].1 <= hi && s@.subrange(
                r@[k].0 as int,
                r@[k].1 as int,
            ) == fields(s@.subrange(lo as int, hi as int), sep)[k],
{
    let mut out: Vec<(usize, usize)> = Vec::new();
    let mut start: usize = lo;
    let mut i: usize = lo;
    while i < hi
        invariant
            lo <= start <= i <= hi <= s@.len(),
            fields(s@.subrange(lo as int, i as int), sep).len() == out@.len() + 1,
            fields(s@.subrange(lo as int, i as int), sep).last() == s@.subrange(start as int, i as int),
            forall|k: int|
                0 <= k < out@.len() ==> lo <= (#[trigger] out@[k]).0 <= out@[k].1 <= hi && s@.subrange(
                    out@[k].0 as int,
                    out@[k].1 as int,
                ) == fields(s@.subrange(lo as int, i as int), sep)[k],
        decreases hi - i,
    {
        let ghost before = fields(s@.subrange(lo as int, i as int), sep);
        let ghost t = s@.subrange(lo as int, i as int + 1);
        assert(t.drop_last() =~= s@.subrange(lo as int, i as int));
        if s[i] == sep {
            out.push((start, i));
            start = i + 1;
            assert(s@.subrange(start as int, i as int + 1) =~= Seq::<u8>::empty());
        } else {
            assert(s@.subrange(start as int, i as int + 1) =~= s@.subrange(start as int, i as int).push(s@[i as int]));
        }
        i = i + 1;
    }
    out.push((start, hi));
    out
}

/// The value of `s[lo..hi]` where it is a decimal number no larger than `max`.
fn parse_dec(s: &[u8], lo: usize, hi: usize, max: u128) -> (r: Option<u128>)
    requires
        lo <= hi <= s@.len(),
    ensures
        r.is_some() == dec_within(s@.subrange(lo as int, hi as int), max as nat),
        r.is_some() ==> r.unwrap() as nat == dec_value(s@.subrange(lo as int, hi as int)),
{
    let ghost w = s@.subrange(lo as int, hi as int);
    if lo == hi {
        return None;
    }
    let mut v: u128 = 0;
    let mut i: usize = lo;
    while i < hi
        invariant
            lo <= i <= hi <= s@.len(),
            w == s@.subrange(lo as int, hi as int),
            v <= max,
            v as nat == dec_value(w.subrange(0, i - lo)),
            forall|k: int| 0 <= k < i - lo ==> is_digit(#[trigger] w[k]),
        decreases hi - i,
    {
        let c = s[i];
        let ghost t = w.subrange(0, i - lo + 1);
        assert(t.drop_last() =~= w.subrange(0, i - lo));
        if c < 48 || c > 57 {
            assert(!is_digit(w[i - lo]));
            return None;
        }
        let d = (c - 48) as u128;
        if d > max || v > (max - d) / 10 {
            proof {
                assert(dec_value(t) > max) by (nonlinear_arith)
                    requires
                        dec_value(t) == v * 10 + d,
                        d > max || v > (max - d) / 10,
                        d <= max ==> (max - d) / 10 * 10 + 10 > max - d,
                ;
                if forall|k: int| 0 <= k < w.len() ==> is_digit(#[trigger] w[k]) {
                    lemma_dec_grows(w, i - lo + 1);
                }
            }
            return None;
        }
        v = v * 10 + d;
        i = i + 1;
    }
    assert(w.subrange(0, hi - lo) =~= w);
    Some(v)
}

/// What reading a block from text gives.
pub type ParseResult = Result<Cidr, ParseError>;

/// `s` holds the byte `c`.
pub open spec fn has_byte(s: Seq<u8>, c: u8) -> bool {
    exists|i: int| 0 <= i < s.len() && s[i] == c
}

/// The block that a dotted-decimal text `a.b.c.d/n` denotes.
pub open spec fn ipv4_of(s: Seq<u8>) -> Result<Cidr, ParseError> {
    let parts = fields(s, 47);
    if parts.len() != 2 {
        Err(ParseError::FailedToParseCidr)
    } else {
        let o = fields(parts[0], 46);
        if o.len() != 4 {
            Err(ParseError::FailedToParseCidr)
        } else if !(forall|k: int| 0 <= k < 4 ==> dec_within(#[trigger] o[k], 255)) || !dec_within(parts[1], 32) {
            Err(ParseError::FailedToParseInt)
        } else {
            Ok(
                Cidr {
                    protocol: Protocol::IPv4,
                    address: (dec_value(o[0]) * 16777216 + dec_value(o[1]) * 65536 + dec_value(o[2]) * 256
                        + dec_value(o[3])) as u128,
                    bits: dec_value(parts[1]) as usize,
                },
            )
        }
    }
}

fn find_byte(s: &[u8], c: u8) -> (r: bool)
    ensures
        r == has_byte(s@, c),
{
    let mut i: usize = 0;
    while i < s.len()
        invariant
            i <= s@.len(),
            forall|k: int| 0 <= k < i ==> s@[k] != c,
        decreases s@.len() - i,
    {
        if s[i] == c {
            return true;
        }
        i = i + 1;
    }
    false
}

fn parse4(s: &[u8]) -> (r: Result<Cidr, ParseError>)
    ensures
        r == ipv4_of(s@),
{
    let ghost parts = fields(s@, 47);
    let ps = split_fields(s, 0, s.len(), 47);
    assert(s@.subrange(0, s@.len() as int) =~= s@);
    if ps.len() != 2 {
        return Err(ParseError::FailedToParseCidr);
    }
    let (a0, a1) = ps[0];
    let (l0, l1) = ps[1];
    let ghost o = fields(parts[0], 46);
    let os = split_fields(s, a0, a1, 46);
    if os.len() != 4 {
        return Err(ParseError::FailedToParseCidr);
    }
    let b0 = parse_dec(s, os[0].0, os[0].1, 255);
    let b1 = parse_dec(s, os[1].0, os[1].1, 255);
    let b2 = parse_dec(s, os[2].0, os[2].1, 255);
    let b3 = parse_dec(s, os[3].0, os[3].1, 255);
    let n = parse_dec(s, l0, l1, 32);
    assert(o[0] == s@.subrange(os@[0].0 as int, os@[0].1 as int));
    assert(o[1] == s@.subrange(os@[1].0 as int, os@[1].1 as int));
    assert(o[2] == s@.subrange(os@[2].0 as int, os@[2].1 as int));
    assert(o[3] == s@.subrange(os@[3].0 as int, os@[3].1 as int));
    match (b0, b1, b2, b3, n) {
        (Some(b0), Some(b1), Some(b2), Some(b3), Some(n)) => {
            Ok(
                Cidr {
                    protocol: Protocol::IPv4,
                    address: b0 * 16777216 + b1 * 65536 + b2 * 256 + b3,
                    bits: n as usize,
                },
            )
        },
        _ => {
            assert(!(forall|k: int| 0 <= k < 4 ==> dec_within(#[trigger] o[k], 255)) || !dec_within(parts[1], 32));
            Err(ParseError::FailedToParseInt)
        },
    }
}

pub open spec fn is_hex(c: u8) -> bool {
    is_digit(c) || 97 <= c <= 102 || 65 <= c <= 70
}

pub open spec fn hex_digit(c: u8) -> nat {
    if is_digit(c) {
        (c - 48) as nat
    } else if 97 <= c <= 102 {
        (c - 87) as nat
    } else {
        (c - 55) as nat
    }
}

/// The value of a string of hexadecimal digits.
pub open spec fn hex_value(s: Seq<u8>) -> nat
    decreases s.len(),
{
    if s.len() == 0 {
        0
    } else {
        hex_value(s.drop_last()) * 16 + hex_digit(s.last())
    }
}

/// `s` is one group of an IPv6 address: one to four hexadecimal digits.
pub open spec fn is_group(s: Seq<u8>) -> bool {
    1 <= s.len() <= 4 && forall|i: int| 0 <= i < s.len() ==> is_hex(#[trigger] s[i])
}

/// Every piece of `g` is a group.
pub open spec fn all_groups(g: Seq<Seq<u8>>) -> bool {
    forall|k: int| 0 <= k < g.len() ==> is_group(#[trigger] g[k])
}

/// The number whose base-65536 digits are `v`, most significant first.
pub open spec fn fold16(v: Seq<nat>) -> nat
    decreases v.len(),
{
    if v.len() == 0 {
        0
    } else {
        fold16(v.drop_last()) * 65536 + v.last()
    }
}

pub open spec fn pow65536(n: nat) -> nat
    decreases n,
{
    if n == 0 {
        1
    } else {
        pow65536((n - 1) as nat) * 65536
    }
}

/// The values of the groups.
pub open spec fn group_values(g: Seq<Seq<u8>>) -> Seq<nat> {
    g.map_values(|x: Seq<u8>| hex_value(x))
}

/// The first position from `i` on where `::` stands, or -1.
pub open spec fn find_pair(s: Seq<u8>, i: int) -> int
    decreases s.len() - i,
{
    if i < 0 || i + 1 >= s.len() {
        -1
    } else if s[i] == 58 && s[i + 1] == 58 {
        i
    } else {
        find_pair(s, i + 1)
    }
}

/// The groups of a piece of an address around `::`: none where it is empty.
pub open spec fn groups_of(s: Seq<u8>) -> Seq<Seq<u8>> {
    if s.len() == 0 {
        Seq::empty()
    } else {
        fields(s, 58)
    }
}

/// The block that a colon-hexadecimal text `x:y::z/n` denotes.
pub open spec fn ipv6_of(s: Seq<u8>) -> Result<Cidr, ParseError> {
    let parts = fields(s, 47);
    if parts.len() != 2 {
        Err(ParseError::FailedToParseCidr)
    } else {
        let a = parts[0];
        let p = find_pair(a, 0);
        let g1 = if p < 0 { fields(a, 58) } else { groups_of(a.subrange(0, p)) };
        let g2 = if p < 0 { Seq::empty() } else { groups_of(a.subrange(p + 2, a.len() as int)) };
        if (p < 0 && g1.len() != 8) || (p >= 0 && g1.len() + g2.len() > 7) {
            Err(ParseError::FailedToParseCidr)
        } else if !all_groups(g1) || !all_groups(g2) || !dec_within(parts[1], 128) {
            Err(ParseError::FailedToParseInt)
        } else {
            let slots = group_values(g1) + Seq::new((8 - g1.len() - g2.len()) as nat, |i: int| 0nat)
                + group_values(g2);
            Ok(Cidr { protocol: Protocol::IPv6, address: fold16(slots) as u128, bits: dec_value(parts[1]) as usize })
        }
    }
}

/// The value of `s[lo..hi]` where it is one group of an IPv6 address.
fn parse_hex(s: &[u8], lo: usize, hi: usize) -> (r: Option<u128>)
    requires
        lo <= hi <= s@.len(),
    ensures
        r.is_some() == is_group(s@.subrange(lo as int, hi as int)),
        r.is_some() ==> r.unwrap() as nat == hex_value(s@.subrange(lo as int, hi as int)) && r.unwrap() < 65536,
{
    let ghost w = s@.subrange(lo as int, hi as int);
    if lo == hi || hi - lo > 4 {
        return None;
    }
    let mut v: u128 = 0;
    let mut i: usize = lo;
    while i < hi
        invariant
            lo <= i <= hi <= s@.len(),
            hi - lo <= 4,
            w == s@.subrange(lo as int, hi as int),
            v as nat == hex_value(w.subrange(0, i - lo)),
            v < pow65536(0) * if i - lo == 0 { 1nat } else if i - lo == 1 { 16nat } else if i - lo == 2 { 256nat } else if i
                - lo == 3 { 4096nat } else { 65536nat },
            forall|k: int| 0 <= k < i - lo ==> is_hex(#[trigger] w[k]),
        decreases hi - i,
    {
        let c = s[i];
        let ghost t = w.subrange(0, i - lo + 1);
        assert(t.drop_last() =~= w.subrange(0, i - lo));
        let d: u128 = if 48 <= c && c <= 57 {
            (c - 48) as u128
        } else if 97 <= c && c <= 102 {
            (c - 87) as u128
        } else if 65 <= c && c <= 70 {
            (c - 55) as u128
        } else {
            assert(!is_hex(w[i - lo]));
            return None;
        };
        v = v * 16 + d;
        i = i + 1;
    }
    assert(w.subrange(0, hi - lo) =~= w);
    Some(v)
}

/// The values of the groups at `r` in `s`, where each is a group.
fn parse6_body(s: &[u8], r: &Vec<(usize, usize)>, Ghost(g): Ghost<Seq<Seq<u8>>>) -> (out: Option<Vec<u128>>)
    requires
        r@.len() == g.len(),
        forall|k: int|
            0 <= k < r@.len() ==> (#[trigger] r@[k]).0 <= r@[k].1 <= s@.len() && s@.subrange(
                r@[k].0 as int,
                r@[k].1 as int,
            ) == g[k],
    ensures
        out.is_some() == all_groups(g),
        out.is_some() ==> out.unwrap()@.len() == g.len() && forall|k: int|
            0 <= k < g.len() ==> (#[trigger] out.unwrap()@[k]) as nat == hex_value(g[k]) && out.unwrap()@[k]
                < 65536,
{
    let mut vals: Vec<u128> = Vec::new();
    let mut k: usize = 0;
    while k < r.len()
        invariant
            k <= r@.len() == g.len(),
            vals@.len() == k,
            forall|j: int|
                0 <= j < r@.len() ==> (#[trigger] r@[j]).0 <= r@[j].1 <= s@.len() && s@.subrange(
                    r@[j].0 as int,
                    r@[j].1 as int,
                ) == g[j],
            forall|j: int| 0 <= j < k ==> is_group(#[trigger] g[j]),
            forall|j: int| 0 <= j < k ==> (#[trigger] vals@[j]) as nat == hex_value(g[j]) && vals@[j] < 65536,
        decreases r@.len() - k,
    {
        let (lo, hi) = r[k];
        match parse_hex(s, lo, hi) {
            Some(v) => vals.push(v),
            None => {
                return None;
            },
        }
        k = k + 1;
    }
    Some(vals)
}

/// The number whose base-65536 digits are `v`.
fn fold_groups(v: &Vec<u128>, Ghost(n): Ghost<Seq<nat>>) -> (r: u128)
    requires
        v@.len() == n.len() == 8,
        forall|k: int| 0 <= k < 8 ==> (#[trigger] v@[k]) as nat == n[k] && v@[k] < 65536,
    ensures
        r as nat == fold16(n),
{
    let mut acc: u128 = 0;
    let mut k: usize = 0;
    proof {
        reveal_with_fuel(pow65536, 9);
    }
    assert(pow65536(8) == 0x1_0000_0000_0000_0000_0000_0000_0000_0000);
    while k < 8
        invariant
            k <= 8,
            v@.len() == n.len() == 8,
            forall|j: int| 0 <= j < 8 ==> (#[trigger] v@[j]) as nat == n[j] && v@[j] < 65536,
            acc as nat == fold16(n.subrange(0, k as int)),
            acc < pow65536(k as nat),
            pow65536(8) == 0x1_0000_0000_0000_0000_0000_0000_0000_0000,
        decreases 8 - k,
    {
        let ghost t = n.subrange(0, k as int + 1);
        assert(t.drop_last() =~= n.subrange(0, k as int));
        proof {
            lemma_pow65536_mono((k + 1) as nat, 8);
            assert(acc * 65536 + v@[k as int] < pow65536((k + 1) as nat)) by (nonlinear_arith)
                requires
                    acc < pow65536(k as nat),
                    v@[k as int] < 65536,
                    pow65536((k + 1) as nat) == pow65536(k as nat) * 65536,
            ;
        }
        acc = acc * 65536 + v[k];
        k = k + 1;
    }
    assert(n.subrange(0, 8) =~= n);
    acc
}

proof fn lemma_pow65536_mono(a: nat, b: nat)
    requires
        a <= b,
    ensures
        pow65536(a) <= pow65536(b),
    decreases b - a,
{
    if a < b {
        lemma_pow65536_mono(a, (b - 1) as nat);
        assert(pow65536(b) == pow65536((b - 1) as nat) * 65536);
    }
}

fn find_pair_exec(s: &[u8], lo: usize, hi: usize) -> (r: Option<usize>)
    requires
        lo <= hi <= s@.len(),
    ensures
        find_pair(s@.subrange(lo as int, hi as int), 0) == match r {
            Some(i) => i - lo,
            None => -1,
        },
        r.is_some() ==> lo <= r.unwrap() && r.unwrap() + 2 <= hi,
{
    let ghost a = s@.subrange(lo as int, hi as int);
    let mut i: usize = lo;
    while hi - i > 1
        invariant
            lo <= i <= hi <= s@.len(),
            a == s@.subrange(lo as int, hi as int),
            find_pair(a, 0) == find_pair(a, i - lo),
        decreases hi - i,
    {
        if s[i] == 58 && s[i + 1] == 58 {
            return Some(i);
        }
        i = i + 1;
    }
    None
}

fn parse6(s: &[u8]) -> (r: Result<Cidr, ParseError>)
    ensures
        r == ipv6_of(s@),
{
    let ghost parts = fields(s@, 47);
    let ps = split_fields(s, 0, s.len(), 47);
    assert(s@.subrange(0, s@.len() as int) =~= s@);
    if ps.len() != 2 {
        return Err(ParseError::FailedToParseCidr);
    }
    let (a0, a1) = ps[0];
    let (l0, l1) = ps[1];
    let ghost a = parts[0];
    let pair = find_pair_exec(s, a0, a1);
    let ghost p = find_pair(a, 0);
    let ghost g1 = if p < 0 { fields(a, 58) } else { groups_of(a.subrange(0, p)) };
    let ghost g2 = if p < 0 { Seq::<Seq<u8>>::empty() } else { groups_of(a.subrange(p + 2, a.len() as int)) };
    let (r1, r2) = match pair {
        None => (split_fields(s, a0, a1, 58), Vec::new()),
        Some(q) => {
            assert(a.subrange(0, q - a0) =~= s@.subrange(a0 as int, q as int));
            assert(a.subrange(q - a0 + 2, a.len() as int) =~= s@.subrange(q + 2, a1 as int));
            let r1 = if q == a0 {
                Vec::new()
            } else {
                split_fields(s, a0, q, 58)
            };
            let r2 = if q + 2 == a1 {
                Vec::new()
            } else {
                split_fields(s, q + 2, a1, 58)
            };
            (r1, r2)
        },
    };
    assert(r1@.len() == g1.len() && r2@.len() == g2.len());
    assert(forall|k: int| 0 <= k < r1@.len() ==> s@.subrange((#[trigger] r1@[k]).0 as int, r1@[k].1 as int) == g1[k]);
    assert(forall|k: int| 0 <= k < r2@.len() ==> s@.subrange((#[trigger] r2@[k]).0 as int, r2@[k].1 as int) == g2[k]);
    if (pair.is_none() && r1.len() != 8) || (pair.is_some() && (r1.len() > 7 || r2.len() > 7 - r1.len())) {
        return Err(ParseError::FailedToParseCidr);
    }
    assert(s@.subrange(l0 as int, l1 as int) == parts[1]);
    assert(p < 0 ==> g1.len() == 8);
    assert(p >= 0 ==> g1.len() + g2.len() <= 7);
    let v1 = match parse6_body(s, &r1, Ghost(g1)) {
        Some(v) => v,
        None => {
            return Err(ParseError::FailedToParseInt);
        },
    };
    let v2 = match parse6_body(s, &r2, Ghost(g2)) {
        Some(v) => v,
        None => {
            return Err(ParseError::FailedToParseInt);
        },
    };
    let n = match parse_dec(s, l0, l1, 128) {
        Some(n) => n,
        None => {
            return Err(ParseError::FailedToParseInt);
        },
    };
    let mut slots: Vec<u128> = Vec::new();
    let ghost sl = group_values(g1) + Seq::new((8 - g1.len() - g2.len()) as nat, |i: int| 0nat)
        + group_values(g2);
    let mut k: usize = 0;
    while k < v1.len()
        invariant
            k <= v1@.len() == g1.len(),
            v1@.len() + v2@.len() <= 8,
            slots@.len() == k,
            sl.len() == 8,
            sl == group_values(g1) + Seq::new((8 - g1.len() - g2.len()) as nat, |i: int| 0nat)
                + group_values(g2),
            forall|j: int| 0 <= j < g1.len() ==> (#[trigger] v1@[j]) as nat == hex_value(g1[j]) && v1@[j] < 65536,
            forall|j: int| 0 <= j < k ==> (#[trigger] slots@[j]) as nat == sl[j] && slots@[j] < 65536,
        decreases v1@.len() - k,
    {
        assert(sl[k as int] == hex_value(g1[k as int]));
        slots.push(v1[k]);
        k = k + 1;
    }
    while k < 8 - v2.len()
        invariant
            v1@.len() <= k <= 8 - v2@.len(),
            v1@.len() == g1.len(),
            v2@.len() == g2.len(),
            v1@.len() + v2@.len() <= 8,
            slots@.len() == k,
            sl.len() == 8,
            sl == group_values(g1) + Seq::new((8 - g1.len() - g2.len()) as nat, |i: int| 0nat)
                + group_values(g2),
            forall|j: int| 0 <= j < k ==> (#[trigger] slots@[j]) as nat == sl[j] && slots@[j] < 65536,
        decreases 8 - v2@.len() - k,
    {
        assert(sl[k as int] == 0);
        slots.push(0);
        k = k + 1;
    }
    let mut m: usize = 0;
    while m < v2.len()
        invariant
            m <= v2@.len() == g2.len(),
            v1@.len() == g1.len(),
            v1@.len() + v2@.len() <= 8,
            slots@.len() == 8 - v2@.len() + m,
            sl.len() == 8,
            sl == group_values(g1) + Seq::new((8 - g1.len() - g2.len()) as nat, |i: int| 0nat)
                + group_values(g2),
            forall|j: int| 0 <= j < g2.len() ==> (#[trigger] v2@[j]) as nat == hex_value(g2[j]) && v2@[j] < 65536,
            forall|j: int| 0 <= j < slots@.len() ==> (#[trigger] slots@[j]) as nat == sl[j] && slots@[j] < 65536,
        decreases v2@.len() - m,
    {
        assert(sl[8 - v2@.len() + m] == hex_value(g2[m as int]));
        slots.push(v2[m]);
        m = m + 1;
    }
    let address = fold_groups(&slots, Ghost(sl));
    assert(s@.subrange(l0 as int, l1 as int) == parts[1]);
    Ok(Cidr { protocol: Protocol::IPv6, address, bits: n as usize })
}

/// The block that a text denotes: dotted-decimal where it holds a `.`,
/// else colon-hexadecimal where it holds a `:`.
pub open spec fn cidr_of(s: Seq<u8>) -> Result<Cidr, ParseError> {
    if has_byte(s, 46) {
        ipv4_of(s)
    } else if has_byte(s, 58) {
        ipv6_of(s)
    } else {
        Err(ParseError::FailedToDetectIpVersion)
    }
}

/// The character of a digit below 16, lowercase.
pub open spec fn digit_char(d: nat) -> char {
    if d < 10 {
        ((48 + d) as u8) as char
    } else {
        ((87 + d) as u8) as char
    }
}

/// The decimal digits of `n`, most significant first.
pub open spec fn dec_text(n: nat) -> Seq<char>
    decreases n,
{
    if n < 10 {
        seq![digit_char(n)]
    } else {
        dec_text(n / 10).push(digit_char(n % 10))
    }
}

/// The lowercase hexadecimal digits of `n`, most significant first.
pub open spec fn hex_text(n: nat) -> Seq<char>
    decreases n,
{
    if n < 16 {
        seq![digit_char(n)]
    } else {
        hex_text(n / 16).push(digit_char(n % 16))
    }
}

/// Relies on the `Display` impl of `u128`, through `ToString`: the decimal
/// digits, without sign or padding.
#[verifier::external_body]
fn decimal(n: u128) -> (r: String)
    ensures
        r@ == dec_text(n as nat),
{
    n.to_string()
}

/// Relies on the `LowerHex` impl of `u128`, through `format!`: the lowercase
/// hexadecimal digits, without prefix or padding.
#[verifier::external_body]
fn lower_hex(n: u128) -> (r: String)
    ensures
        r@ == hex_text(n as nat),
{
    format!("{:x}", n)
}

/// Octet `k` of an IPv4 address, counting from the least significant.
pub open spec fn octet(a: u128, k: u128) -> u128 {
    (a >> (8 * k)) & 0xff
}

/// Group `k` of an IPv6 address, counting from the most significant.
pub open spec fn group(a: u128, k: u128) -> u128 {
    (a >> (112 - 16 * k)) & 0xffff
}

/// The first `k` groups of an IPv6 address, joined by `:`.
pub open spec fn groups_text(a: u128, k: nat) -> Seq<char>
    decreases k,
{
    if k <= 1 {
        hex_text(group(a, 0) as nat)
    } else {
        groups_text(a, (k - 1) as nat) + seq![':'] + hex_text(group(a, (k - 1) as u128) as nat)
    }
}

impl Cidr {
    /// `a.b.c.d/n`.
    pub open spec fn ipv4_text(self) -> Seq<char> {
        dec_text(octet(self.address, 3) as nat) + seq!['.'] + dec_text(octet(self.address, 2) as nat) + seq!['.']
            + dec_text(octet(self.address, 1) as nat) + seq!['.'] + dec_text(octet(self.address, 0) as nat)
            + seq!['/'] + dec_text(self.bits as nat)
    }

    /// Eight groups of lowercase hexadecimal digits joined by `:`, then `/n`.
    pub open spec fn ipv6_text(self) -> Seq<char> {
        groups_text(self.address, 8) + seq!['/'] + dec_text(self.bits as nat)
    }

    /// The text of the block in its family's notation.
    pub open spec fn text(self) -> Seq<char> {
        match self.protocol {
            Protocol::IPv4 => self.ipv4_text(),
            Protocol::IPv6 => self.ipv6_text(),
        }
    }

    /// Reads a block from its text.
    pub fn parse(addr: &str) -> (r: ParseResult)
        ensures
            r == cidr_of(addr.spec_bytes()),
            r.is_ok() ==> r.unwrap().wf(),
    {
        Cidr::parse_bytes(addr.as_bytes())
    }

    /// Reads a block from the bytes of its text.
    pub fn parse_bytes(s: &[u8]) -> (r: Result<Cidr, ParseError>)
        ensures
            r == cidr_of(s@),
            r.is_ok() ==> r.unwrap().wf(),
    {
        if find_byte(s, 46) {
            parse4(s)
        } else if find_byte(s, 58) {
            parse6(s)
        } else {
            Err(ParseError::FailedToDetectIpVersion)
        }
    }

    fn to_string4(&self) -> (r: String)
        ensures
            r@ == self.ipv4_text(),
    {
        let a = self.address;
        let mut r = decimal((a >> 24) & 0xff);
        proof {
            reveal_strlit(".");
            reveal_strlit("/");
        }
        r.append(".");
        r.append(decimal((a >> 16) & 0xff).as_str());
        r.append(".");
        r.append(decimal((a >> 8) & 0xff).as_str());
        r.append(".");
        r.append(decimal((a >> 0) & 0xff).as_str());
        r.append("/");
        r.append(decimal(self.bits as u128).as_str());
        r
    }

    fn to_string6(&self) -> (r: String)
        ensures
            r@ == self.ipv6_text(),
    {
        let a = self.address;
        let mut r = lower_hex((a >> 112) & 0xffff);
        proof {
            reveal_strlit(":");
            reveal_strlit("/");
        }
        let mut k: u128 = 1;
        while k < 8
            invariant
                1 <= k <= 8,
                r@ == groups_text(a, k as nat),
            decreases 8 - k,
        {
            let g = lower_hex((a >> (112 - 16 * k)) & 0xffff);
            proof {
                reveal_strlit(":");
            }
            assert(g@ == hex_text(group(a, k) as nat));
            r.append(":");
            r.append(g.as_str());
            assert(groups_text(a, (k + 1) as nat) == groups_text(a, k as nat) + seq![':'] + hex_text(
                group(a, k) as nat,
            ));
            assert(r@ =~= groups_text(a, (k + 1) as nat));
            k = k + 1;
        }
        r.append("/");
        r.append(decimal(self.bits as u128).as_str());
        r
    }

    /// The text of the block: `a.b.c.d/n` for IPv4, eight groups of
    /// hexadecimal digits and `/n` for IPv6.
    pub fn to_string(&self) -> (r: String)
        ensures
            r@ == self.text(),
    {
        match self.protocol {
            Protocol::IPv4 => self.to_string4(),
            Protocol::IPv6 => self.to_string6(),
        }
    }
}

} // verus!

//! Target-address enumeration: a literal address, a CIDR block, or an
//! address range becomes the list of concrete addresses to scan, and a
//! domain lookup's outcome is checked. Every failure is a `SetupError`
//! naming the offending input.

use vstd::prelude::*;
use vstd::arithmetic::power2::{pow2, lemma2_to64, lemma2_to64_rest, lemma_pow2_adds,
    lemma_pow2_strictly_increases, lemma_pow2_pos};
use crate::strutil::{split_on, split_chars, chars_of, trim_spec, trim_chars, string_of_chars};
use crate::ip::{IpValue, spec_parse_ip, spec_parse_ipv4, spec_parse_ipv6, parse_ip_chars,
    parse_ipv4_chars, parse_ipv6_chars, ipv4_str, ipv6_str, ipv4_string, ipv6_string,
    all_dec_digits, dec_val, is_dec_digit, lemma_dec_val_bound, pow10};
use crate::errors::{SetupError, SetupErrorKind};

verus! {

/// Whether `text` is a syntactically valid IPv4 or IPv6 address.
pub fn is_valid_ip(ip_str: &str) -> (b: bool)
    ensures
        b == (spec_parse_ip(ip_str@, true) is Some),
{
    let cs = chars_of(ip_str);
    parse_ip_chars(&cs, true).is_some()
}

/// Checks a domain lookup's outcome: resolution must have succeeded and
/// yielded at least one address, else the scan request fails.
pub fn domain_addresses(name: &str, lookup: Option<Vec<String>>) -> (r: Result<
    Vec<String>,
    SetupError,
>)
    ensures
        match r {
            Ok(v) => lookup matches Some(l) && l@ == v@ && v@.len() > 0,
            Err(e) => {
                &&& (lookup is None || lookup->0@.len() == 0)
                &&& e.kind == SetupErrorKind::DomainResolutionFailed
                &&& e.input@ == name@
            },
        },
{
    match lookup {
        Some(v) => {
            if v.len() > 0 {
                Ok(v)
            } else {
                Err(SetupError::new(SetupErrorKind::DomainResolutionFailed, name))
            }
        },
        None => Err(SetupError::new(SetupErrorKind::DomainResolutionFailed, name)),
    }
}

/// A prefix-length token: one to `max_len` decimal digits, value at most
/// `limit`.
pub open spec fn is_prefix_text(t: Seq<char>, max_len: int, limit: int) -> bool {
    1 <= t.len() <= max_len && all_dec_digits(t) && dec_val(t) <= limit
}

/// Parses a prefix-length token; `None` exactly when `t` is not one.
fn prefix_of(t: &Vec<char>, max_len: usize, limit: u32) -> (r: Option<u32>)
    requires
        max_len <= 3,
    ensures
        match r {
            Some(v) => is_prefix_text(t@, max_len as int, limit as int) && v as int == dec_val(t@),
            None => !is_prefix_text(t@, max_len as int, limit as int),
        },
{
    if t.len() < 1 || t.len() > max_len {
        return None;
    }
    let mut val: u32 = 0;
    let mut i: usize = 0;
    while i < t.len()
        invariant
            i <= t@.len() <= 3,
            all_dec_digits(t@.take(i as int)),
            val as int == dec_val(t@.take(i as int)),
        decreases t@.len() - i,
    {
        let c = t[i];
        if c < '0' || c > '9' {
            assert(!is_dec_digit(t@[i as int]));
            return None;
        }
        let d: u32 = (c as u32) - 48;
        proof {
            assert(t@.take(i + 1 as int).drop_last() =~= t@.take(i as int));
            assert(t@.take(i + 1 as int).last() == t@[i as int]);
            lemma_dec_val_bound(t@.take(i as int));
            reveal_with_fuel(pow10, 4);
        }
        val = val * 10 + d;
        i = i + 1;
        proof {
            assert(all_dec_digits(t@.take(i as int)));
        }
    }
    assert(t@.take(t@.len() as int) =~= t@);
    if val <= limit {
        Some(val)
    } else {
        None
    }
}

/// The first usable host address of an IPv4 block: past the network
/// address, except in /31 and /32 blocks, which have no such reserve.
pub open spec fn cidr_v4_first(a: int, p: int) -> int {
    let blk = pow2((32 - p) as nat) as int;
    let net = a - a % blk;
    if p < 31 {
        net + 1
    } else {
        net
    }
}

/// How many usable host addresses an IPv4 block holds.
pub open spec fn cidr_v4_count(p: int) -> int {
    if p < 31 {
        pow2((32 - p) as nat) - 2
    } else {
        pow2((32 - p) as nat) as int
    }
}

/// The network address of an IPv6 block.
pub open spec fn cidr_v6_net(a: int, p: int) -> int {
    a - a % (pow2((128 - p) as nat) as int)
}

/// 2 to the power `e`, for block sizes.
fn pow2_u64(e: usize) -> (r: u64)
    requires
        e <= 32,
    ensures
        r as nat == pow2(e as nat),
        r >= 1,
{
    proof {
        lemma2_to64();
    }
    let mut r: u64 = 1;
    let mut i: usize = 0;
    while i < e
        invariant
            i <= e <= 32,
            r as nat == pow2(i as nat),
        decreases e - i,
    {
        proof {
            lemma2_to64();
            if (i as nat) < 32 {
                lemma_pow2_strictly_increases(i as nat, 32);
            }
        }
        r = r * 2;
        proof {
            lemma2_to64();
            lemma_pow2_adds(i as nat, 1);
        }
        i = i + 1;
    }
    proof {
        lemma_pow2_pos(e as nat);
    }
    r
}

proof fn lemma_pow2_127()
    ensures
        pow2(127) == 0x8000_0000_0000_0000_0000_0000_0000_0000nat,
{
    lemma_pow2_adds(64, 63);
    lemma2_to64();
    lemma2_to64_rest();
    assert(pow2(127) == pow2(64) * pow2(63));
    assert(0x1_0000_0000_0000_0000 * 0x8000_0000_0000_0000
        == 0x8000_0000_0000_0000_0000_0000_0000_0000int) by (nonlinear_arith);
}

/// 2 to the power `e`, for the wider IPv6 block sizes.
fn pow2_u128(e: usize) -> (r: u128)
    requires
        e <= 127,
    ensures
        r as nat == pow2(e as nat),
        r >= 1,
{
    proof {
        lemma2_to64();
    }
    let mut r: u128 = 1;
    let mut i: usize = 0;
    while i < e
        invariant
            i <= e <= 127,
            r as nat == pow2(i as nat),
        decreases e - i,
    {
        proof {
            lemma_pow2_127();
            if (i as nat) < 127 {
                lemma_pow2_strictly_increases(i as nat, 127);
            }
        }
        r = r * 2;
        proof {
            lemma2_to64();
            lemma_pow2_adds(i as nat, 1);
        }
        i = i + 1;
    }
    proof {
        lemma_pow2_pos(e as nat);
    }
    r
}

/// The block described by a number `a` below `whole == blk * frac` sits at
/// `a - a % blk`, and ends before `whole`.
proof fn lemma_net_block_bound(a: int, blk: int, frac: int, whole: int)
    requires
        blk >= 1,
        frac >= 1,
        whole == blk * frac,
        0 <= a < whole,
    ensures
        0 <= a - a % blk,
        (a - a % blk) + blk <= whole,
        a - a % blk <= a,
{
    let q = a / blk;
    vstd::arithmetic::div_mod::lemma_fundamental_div_mod(a, blk);
    vstd::arithmetic::div_mod::lemma_mod_bound(a, blk);
    assert(a == blk * q + a % blk);
    assert(blk * q == a - a % blk);
    assert(blk * q < blk * frac);
    assert(q < frac) by (nonlinear_arith)
        requires
            blk >= 1,
            blk * q < blk * frac,
    ;
    assert(blk * q <= blk * (frac - 1)) by (nonlinear_arith)
        requires
            blk >= 1,
            q <= frac - 1,
    ;
    assert(blk * (frac - 1) == blk * frac - blk) by (nonlinear_arith);
    assert(blk * q >= 0) by (nonlinear_arith)
        requires
            blk >= 1,
            q >= 0,
    ;
    assert(q >= 0) by {
        vstd::arithmetic::div_mod::lemma_div_pos_is_pos(a, blk);
    }
}

/// Expands CIDR text into its usable host addresses: for IPv4 the network
/// and broadcast addresses are excluded except in /31 and /32 blocks; for
/// IPv6 the whole block is enumerated. An IPv6 block with more host
/// addresses than a `Vec` can hold — more than `usize::MAX` — is refused
/// with `RangeTooLarge`; that is the machine's limit, not a policy.
pub fn parse_cidr(cidr_str: &str) -> (r: Result<Vec<String>, SetupError>)
    ensures
        ({
            let parts = split_on(cidr_str@, '/');
            match r {
                Ok(v) => parts.len() == 2 && ({
                    ||| ({
                        &&& spec_parse_ipv4(parts[0], false) matches Some(a)
                        &&& is_prefix_text(parts[1], 2, 32)
                        &&& v@.len() == cidr_v4_count(dec_val(parts[1]))
                        &&& forall|k: int|
                            0 <= k < v@.len() ==> v@[k]@ == ipv4_str(
                                cidr_v4_first(a as int, dec_val(parts[1])) + k,
                            )
                    })
                    ||| ({
                        &&& spec_parse_ipv4(parts[0], false) is None
                        &&& spec_parse_ipv6(parts[0], false) matches Some(a)
                        &&& is_prefix_text(parts[1], 3, 128)
                        &&& pow2((128 - dec_val(parts[1])) as nat) <= usize::MAX
                        &&& v@.len() == pow2((128 - dec_val(parts[1])) as nat)
                        &&& forall|k: int|
                            0 <= k < v@.len() ==> v@[k]@ == ipv6_str(
                                cidr_v6_net(a as int, dec_val(parts[1])) + k,
                            )
                    })
                }),
                Err(e) => {
                    &&& e.input@ == cidr_str@
                    &&& if parts.len() != 2 {
                        e.kind == SetupErrorKind::InvalidCidr
                    } else if spec_parse_ipv4(parts[0], false) is Some {
                        e.kind == SetupErrorKind::InvalidCidr && !is_prefix_text(parts[1], 2, 32)
                    } else if spec_parse_ipv6(parts[0], false) is Some {
                        if is_prefix_text(parts[1], 3, 128) {
                            e.kind == SetupErrorKind::RangeTooLarge && pow2(
                                (128 - dec_val(parts[1])) as nat,
                            ) > usize::MAX
                        } else {
                            e.kind == SetupErrorKind::InvalidCidr
                        }
                    } else {
                        e.kind == SetupErrorKind::InvalidCidr
                    }
                },
            }
        }),
{
    let cs = chars_of(cidr_str);
    let parts = split_chars(&cs, '/');
    if parts.len() != 2 {
        return Err(SetupError::new(SetupErrorKind::InvalidCidr, cidr_str));
    }
    match parse_ipv4_chars(&parts[0], false) {
        Some(a) => {
            match prefix_of(&parts[1], 2, 32) {
                Some(p) => {
                    let ghost pi = dec_val(split_on(cidr_str@, '/')[1]);
                    let blk = pow2_u64((32 - p) as usize);
                    proof {
                        lemma_pow2_adds((32 - p) as nat, p as nat);
                        lemma2_to64();
                        lemma_net_block_bound(
                            a as int,
                            blk as int,
                            pow2(p as nat) as int,
                            0x1_0000_0000,
                        );
                    }
                    let low = (a as u64) % blk;
                    let net = (a as u64) - low;
                    let first: u64 = if p < 31 {
                        net + 1
                    } else {
                        net
                    };
                    let count: u64 = if p < 31 {
                        proof {
                            if (p as nat) < 31 {
                                lemma_pow2_strictly_increases(1, (32 - p) as nat);
                            }
                        }
                        blk - 2
                    } else {
                        blk
                    };
                    let mut out: Vec<String> = Vec::new();
                    let mut k: u64 = 0;
                    while k < count
                        invariant
                            k <= count,
                            first + count <= 0x1_0000_0000,
                            first as int == cidr_v4_first(a as int, pi),
                            count as int == cidr_v4_count(pi),
                            out@.len() == k,
                            forall|j: int|
                                0 <= j < k ==> out@[j]@ == ipv4_str(first as int + j),
                        decreases count - k,
                    {
                        let addr = ipv4_string((first + k) as u32);
                        out.push(addr);
                        k = k + 1;
                    }
                    Ok(out)
                },
                None => Err(SetupError::new(SetupErrorKind::InvalidCidr, cidr_str)),
            }
        },
        None => {
            match parse_ipv6_chars(&parts[0], false) {
                Some(a) => {
                    match prefix_of(&parts[1], 3, 128) {
                        Some(p) => {
                            let ghost pi = dec_val(split_on(cidr_str@, '/')[1]);
                            if p == 0 {
                                proof {
                                    lemma_pow2_adds(64, 64);
                                    lemma2_to64();
                                    assert(pow2(128) > usize::MAX);
                                }
                                return Err(SetupError::new(
                                    SetupErrorKind::RangeTooLarge,
                                    cidr_str,
                                ));
                            }
                            let blk = pow2_u128((128 - p) as usize);
                            if blk > usize::MAX as u128 {
                                return Err(SetupError::new(
                                    SetupErrorKind::RangeTooLarge,
                                    cidr_str,
                                ));
                            }
                            proof {
                                lemma_pow2_adds((128 - p) as nat, p as nat);
                                assert(pow2(128) == 0x1_0000_0000_0000_0000_0000_0000_0000_0000int)
                                    by {
                                    lemma_pow2_adds(64, 64);
                                    lemma2_to64();
                                }
                                lemma_net_block_bound(
                                    a as int,
                                    blk as int,
                                    pow2(p as nat) as int,
                                    0x1_0000_0000_0000_0000_0000_0000_0000_0000int,
                                );
                            }
                            let low = a % blk;
                            let net = a - low;
                            let mut out: Vec<String> = Vec::new();
                            let mut k: u128 = 0;
                            while k < blk
                                invariant
                                    k <= blk,
                                    net as int == cidr_v6_net(a as int, pi),
                                    net + blk <= 0x1_0000_0000_0000_0000_0000_0000_0000_0000int,
                                    blk as nat == pow2((128 - pi) as nat),
                                    out@.len() == k,
                                    forall|j: int|
                                        0 <= j < k ==> out@[j]@ == ipv6_str(net as int + j),
                                decreases blk - k,
                            {
                                let addr = ipv6_string(net + k);
                                out.push(addr);
                                k = k + 1;
                            }
                            Ok(out)
                        },
                        None => Err(SetupError::new(SetupErrorKind::InvalidCidr, cidr_str)),
                    }
                },
                None => Err(SetupError::new(SetupErrorKind::InvalidCidr, cidr_str)),
            }
        },
    }
}

/// Expands "start-end" range text into every address from start to end
/// inclusive, in increasing order.
pub fn parse_ip_range(range_str: &str) -> (r: Result<Vec<String>, SetupError>)
    ensures
        ({
            let parts = split_on(range_str@, '-');
            match r {
                Ok(v) => parts.len() == 2 && ({
                    let a = spec_parse_ip(trim_spec(parts[0]), true);
                    let b = spec_parse_ip(trim_spec(parts[1]), true);
                    match (a, b) {
                        (Some(IpValue::V4(x)), Some(IpValue::V4(y))) => {
                            &&& x <= y
                            &&& v@.len() == y - x + 1
                            &&& forall|k: int|
                                0 <= k < v@.len() ==> v@[k]@ == ipv4_str(x as int + k)
                        },
                        (Some(IpValue::V6(x)), Some(IpValue::V6(y))) => {
                            &&& x <= y
                            &&& y - x < 65536
                            &&& v@.len() == y - x + 1
                            &&& forall|k: int|
                                0 <= k < v@.len() ==> v@[k]@ == ipv6_str(x as int + k)
                        },
                        _ => false,
                    }
                }),
                Err(e) => {
                    if parts.len() != 2 {
                        e.kind == SetupErrorKind::InvalidRange && e.input@ == range_str@
                    } else {
                        let a = spec_parse_ip(trim_spec(parts[0]), true);
                        let b = spec_parse_ip(trim_spec(parts[1]), true);
                        if a is None {
                            e.kind == SetupErrorKind::InvalidAddress && e.input@ == parts[0]
                        } else if b is None {
                            e.kind == SetupErrorKind::InvalidAddress && e.input@ == parts[1]
                        } else {
                            match (a->0, b->0) {
                                (IpValue::V4(x), IpValue::V4(y)) => {
                                    &&& x > y
                                    &&& e.kind == SetupErrorKind::InvertedRange
                                    &&& e.input@ == range_str@
                                },
                                (IpValue::V6(x), IpValue::V6(y)) => {
                                    &&& e.input@ == range_str@
                                    &&& if x > y {
                                        e.kind == SetupErrorKind::InvertedRange
                                    } else {
                                        e.kind == SetupErrorKind::RangeTooLarge && y - x >= 65536
                                    }
                                },
                                _ => e.kind == SetupErrorKind::MixedAddressFamily && e.input@
                                    == range_str@,
                            }
                        }
                    }
                },
            }
        }),
{
    let cs = chars_of(range_str);
    let parts = split_chars(&cs, '-');
    if parts.len() != 2 {
        return Err(SetupError::new(SetupErrorKind::InvalidRange, range_str));
    }
    let t0 = trim_chars(&parts[0]);
    let t1 = trim_chars(&parts[1]);
    let a = match parse_ip_chars(&t0, true) {
        Some(a) => a,
        None => {
            let raw = string_of_chars(&parts[0]);
            return Err(SetupError::new(SetupErrorKind::InvalidAddress, raw.as_str()));
        },
    };
    let b = match parse_ip_chars(&t1, true) {
        Some(b) => b,
        None => {
            let raw = string_of_chars(&parts[1]);
            return Err(SetupError::new(SetupErrorKind::InvalidAddress, raw.as_str()));
        },
    };
    match (a, b) {
        (IpValue::V4(x), IpValue::V4(y)) => {
            if x > y {
                return Err(SetupError::new(SetupErrorKind::InvertedRange, range_str));
            }
            let mut out: Vec<String> = Vec::new();
            let mut cur: u64 = x as u64;
            while cur <= y as u64
                invariant
                    x <= y,
                    cur >= x,
                    cur <= y as u64 + 1,
                    out@.len() == cur - x,
                    forall|k: int| 0 <= k < out@.len() ==> out@[k]@ == ipv4_str(x as int + k),
                decreases y as u64 + 1 - cur,
            {
                let addr = ipv4_string(cur as u32);
                out.push(addr);
                cur = cur + 1;
            }
            Ok(out)
        },
        (IpValue::V6(x), IpValue::V6(y)) => {
            if x > y {
                return Err(SetupError::new(SetupErrorKind::InvertedRange, range_str));
            }
            if y - x >= 65536 {
                return Err(SetupError::new(SetupErrorKind::RangeTooLarge, range_str));
            }
            let count: usize = ((y - x) as usize) + 1;
            let mut out: Vec<String> = Vec::new();
            let mut k: usize = 0;
            while k < count
                invariant
                    x <= y,
                    count == y - x + 1,
                    k <= count,
                    out@.len() == k,
                    forall|j: int| 0 <= j < k ==> out@[j]@ == ipv6_str(x as int + j),
                decreases count - k,
            {
                let addr = ipv6_string(x + (k as u128));
                out.push(addr);
                k = k + 1;
            }
            Ok(out)
        },
        _ => Err(SetupError::new(SetupErrorKind::MixedAddressFamily, range_str)),
    }
}

} // verus!

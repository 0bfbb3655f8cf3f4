//! The textual forms of IPv4 and IPv6 addresses: grammar specifications,
//! verified parsers, and verified canonical formatting.
//!
//! Two grammar flavours exist. The strict flavour refuses leading zeros
//! in an octet and demands that a `::` stand for at least one zero group,
//! as address literals and range endpoints require; the lenient flavour
//! of CIDR text allows leading-zero octets and a `::` standing for no
//! group at all.

use vstd::prelude::*;
use crate::strutil::{split_on, split_chars};

verus! {

/// An address value: 32 bits for IPv4, 128 bits for IPv6.
#[derive(Clone, Copy, Debug, PartialEq, Eq, Structural)]
pub enum IpValue {
    V4(u32),
    V6(u128),
}

pub open spec fn is_dec_digit(c: char) -> bool {
    '0' <= c && c <= '9'
}

pub open spec fn dec_digit_val(c: char) -> int {
    c as int - 48
}

pub open spec fn all_dec_digits(t: Seq<char>) -> bool {
    forall|k: int| 0 <= k < t.len() ==> is_dec_digit(t[k])
}

/// The number written by the decimal digits of `t`.
pub open spec fn dec_val(t: Seq<char>) -> int
    decreases t.len(),
{
    if t.len() == 0 {
        0
    } else {
        dec_val(t.drop_last()) * 10 + dec_digit_val(t.last())
    }
}

pub open spec fn is_hex_digit(c: char) -> bool {
    ('0' <= c && c <= '9') || ('a' <= c && c <= 'f') || ('A' <= c && c <= 'F')
}

pub open spec fn hex_digit_val(c: char) -> int {
    if '0' <= c && c <= '9' {
        c as int - 48
    } else if 'a' <= c && c <= 'f' {
        c as int - 87
    } else {
        c as int - 55
    }
}

pub open spec fn all_hex_digits(t: Seq<char>) -> bool {
    forall|k: int| 0 <= k < t.len() ==> is_hex_digit(t[k])
}

/// The number written by the hexadecimal digits of `t`.
pub open spec fn hex_val(t: Seq<char>) -> int
    decreases t.len(),
{
    if t.len() == 0 {
        0
    } else {
        hex_val(t.drop_last()) * 16 + hex_digit_val(t.last())
    }
}

pub open spec fn pow10(n: int) -> int
    decreases n,
{
    if n <= 0 {
        1
    } else {
        10 * pow10(n - 1)
    }
}

pub open spec fn pow16(n: int) -> int
    decreases n,
{
    if n <= 0 {
        1
    } else {
        16 * pow16(n - 1)
    }
}

pub proof fn lemma_dec_val_bound(t: Seq<char>)
    requires
        all_dec_digits(t),
    ensures
        0 <= dec_val(t) < pow10(t.len() as int),
    decreases t.len(),
{
    if t.len() > 0 {
        assert(all_dec_digits(t.drop_last())) by {
            assert(forall|k: int|
                0 <= k < t.len() - 1 ==> t.drop_last()[k] == t[k]);
        }
        lemma_dec_val_bound(t.drop_last());
        assert(is_dec_digit(t.last()));
    }
}

pub proof fn lemma_hex_val_bound(t: Seq<char>)
    requires
        all_hex_digits(t),
    ensures
        0 <= hex_val(t) < pow16(t.len() as int),
    decreases t.len(),
{
    if t.len() > 0 {
        assert(all_hex_digits(t.drop_last())) by {
            assert(forall|k: int|
                0 <= k < t.len() - 1 ==> t.drop_last()[k] == t[k]);
        }
        lemma_hex_val_bound(t.drop_last());
        assert(is_hex_digit(t.last()));
    }
}

/// A valid decimal octet: one to three digits whose value stays under 256,
/// without a leading zero when `strict` asks for that.
pub open spec fn is_octet_text(t: Seq<char>, strict: bool) -> bool {
    &&& 1 <= t.len() <= 3
    &&& all_dec_digits(t)
    &&& dec_val(t) < 256
    &&& (strict && t.len() > 1 ==> t[0] != '0')
}

/// A valid hexadecimal group of an IPv6 address: one to four hex digits.
pub open spec fn is_group_text(t: Seq<char>) -> bool {
    1 <= t.len() <= 4 && all_hex_digits(t)
}

/// The IPv4 value written by the dotted-quad text `s`, if `s` is one.
pub open spec fn spec_parse_ipv4(s: Seq<char>, strict: bool) -> Option<u32> {
    let parts = split_on(s, '.');
    if parts.len() == 4 && (forall|k: int| 0 <= k < 4 ==> is_octet_text(parts[k], strict)) {
        Some(
            ((dec_val(parts[0]) * 0x1000000 + dec_val(parts[1]) * 0x10000 + dec_val(parts[2])
                * 0x100 + dec_val(parts[3])) as u32),
        )
    } else {
        None
    }
}

/// Parses `t` as a dotted-quad IPv4 address, per `spec_parse_ipv4`.
pub fn parse_ipv4_chars(t: &Vec<char>, strict: bool) -> (r: Option<u32>)
    ensures
        r == spec_parse_ipv4(t@, strict),
{
    let parts = split_chars(t, '.');
    if parts.len() != 4 {
        return None;
    }
    let o0 = octet_of(&parts[0], strict);
    let o1 = octet_of(&parts[1], strict);
    let o2 = octet_of(&parts[2], strict);
    let o3 = octet_of(&parts[3], strict);
    match (o0, o1, o2, o3) {
        (Some(a), Some(b), Some(c), Some(d)) => {
            let v: u32 = (a as u32) * 0x1000000 + (b as u32) * 0x10000 + (c as u32) * 0x100
                + (d as u32);
            Some(v)
        },
        _ => None,
    }
}

/// Parses one decimal octet; `None` exactly when `t` is not a valid octet.
fn octet_of(t: &Vec<char>, strict: bool) -> (r: Option<u8>)
    ensures
        match r {
            Some(v) => is_octet_text(t@, strict) && v as int == dec_val(t@),
            None => !is_octet_text(t@, strict),
        },
{
    if t.len() < 1 || t.len() > 3 {
        return None;
    }
    if strict && t.len() > 1 && t[0] == '0' {
        return None;
    }
    let mut val: u32 = 0;
    let mut i: usize = 0;
    while i < t.len()
        invariant
            i <= t@.len() <= 3,
            all_dec_digits(t@.take(i as int)),
            val as int == dec_val(t@.take(i as int)),
        decreases t@.len() - i,
    {
        let c = t[i];
        if c < '0' || c > '9' {
            assert(!is_dec_digit(t@[i as int]));
            return None;
        }
        let d: u32 = (c as u32) - 48;
        proof {
            assert(t@.take(i + 1 as int).drop_last() =~= t@.take(i as int));
            assert(t@.take(i + 1 as int).last() == t@[i as int]);
            lemma_dec_val_bound(t@.take(i as int));
            reveal_with_fuel(pow10, 4);
        }
        val = val * 10 + d;
        i = i + 1;
        proof {
            assert(all_dec_digits(t@.take(i as int)));
        }
    }
    assert(t@.take(t@.len() as int) =~= t@);
    if val < 256 {
        Some(val as u8)
    } else {
        None
    }
}

/// Parses one hexadecimal group; `None` exactly when `t` is not one.
fn group_of(t: &Vec<char>) -> (r: Option<u16>)
    ensures
        match r {
            Some(v) => is_group_text(t@) && v as int == hex_val(t@),
            None => !is_group_text(t@),
        },
{
    if t.len() < 1 || t.len() > 4 {
        return None;
    }
    let mut val: u32 = 0;
    let mut i: usize = 0;
    while i < t.len()
        invariant
            i <= t@.len() <= 4,
            all_hex_digits(t@.take(i as int)),
            val as int == hex_val(t@.take(i as int)),
        decreases t@.len() - i,
    {
        let c = t[i];
        let d: u32 = if c >= '0' && c <= '9' {
            (c as u32) - 48
        } else if c >= 'a' && c <= 'f' {
            (c as u32) - 87
        } else if c >= 'A' && c <= 'F' {
            (c as u32) - 55
        } else {
            assert(!is_hex_digit(t@[i as int]));
            return None;
        };
        proof {
            assert(t@.take(i + 1 as int).drop_last() =~= t@.take(i as int));
            assert(t@.take(i + 1 as int).last() == t@[i as int]);
            lemma_hex_val_bound(t@.take(i as int));
            reveal_with_fuel(pow16, 5);
        }
        val = val * 16 + d;
        i = i + 1;
        proof {
            assert(all_hex_digits(t@.take(i as int)));
        }
    }
    assert(t@.take(t@.len() as int) =~= t@);
    proof {
        lemma_hex_val_bound(t@);
        reveal_with_fuel(pow16, 5);
    }
    Some(val as u16)
}

/// The index of the first empty part of `P`, or -1 if none is empty.
pub open spec fn first_empty(P: Seq<Seq<char>>) -> int
    decreases P.len(),
{
    if P.len() == 0 {
        -1
    } else if P[0].len() == 0 {
        0
    } else {
        let r = first_empty(P.skip(1));
        if r == -1 {
            -1
        } else {
            r + 1
        }
    }
}

pub proof fn lemma_first_empty(P: Seq<Seq<char>>)
    ensures
        first_empty(P) == -1 ==> forall|j: int| 0 <= j < P.len() ==> P[j].len() > 0,
        first_empty(P) != -1 ==> {
            &&& 0 <= first_empty(P) < P.len()
            &&& P[first_empty(P)].len() == 0
            &&& forall|j: int| 0 <= j < first_empty(P) ==> P[j].len() > 0
        },
    decreases P.len(),
{
    if P.len() > 0 && P[0].len() != 0 {
        lemma_first_empty(P.skip(1));
        assert(forall|j: int| 0 <= j < P.len() - 1 ==> P.skip(1)[j] == P[j + 1]);
        let r = first_empty(P.skip(1));
        if r == -1 {
            assert forall|j: int| 0 <= j < P.len() implies P[j].len() > 0 by {
                if j > 0 {
                    assert(P.skip(1)[j - 1] == P[j]);
                }
            }
        } else {
            assert(P.skip(1)[r] == P[r + 1]);
            assert forall|j: int| 0 <= j < first_empty(P) implies P[j].len() > 0 by {
                if j > 0 {
                    assert(P.skip(1)[j - 1] == P[j]);
                }
            }
        }
    }
}

/// The group values of parts that are all hexadecimal groups.
pub open spec fn head_groups(P: Seq<Seq<char>>) -> Option<Seq<int>> {
    if forall|k: int| 0 <= k < P.len() ==> is_group_text(P[k]) {
        Some(Seq::new(P.len(), |k: int| hex_val(P[k])))
    } else {
        None
    }
}

/// The group values of a part list whose last part may be an embedded
/// dotted-quad IPv4 address, which stands for two groups.
pub open spec fn tail_groups(P: Seq<Seq<char>>, strict: bool) -> Option<Seq<int>> {
    if P.len() == 0 {
        Some(Seq::<int>::empty())
    } else {
        match spec_parse_ipv4(P.last(), strict) {
            Some(v) => match head_groups(P.drop_last()) {
                Some(gh) => Some(gh + seq![v as int / 0x10000, v as int % 0x10000]),
                None => None,
            },
            None => head_groups(P),
        }
    }
}

pub open spec fn zero_groups(n: int) -> Seq<int> {
    Seq::new(n as nat, |k: int| 0)
}

/// The address value of eight group values.
pub open spec fn v6_of_groups(g: Seq<int>) -> int {
    g[0] * 0x1_0000_0000_0000_0000_0000_0000_0000 + g[1] * 0x1_0000_0000_0000_0000_0000_0000
        + g[2] * 0x1_0000_0000_0000_0000_0000 + g[3] * 0x1_0000_0000_0000_0000 + g[4]
        * 0x1_0000_0000_0000 + g[5] * 0x1_0000_0000 + g[6] * 0x1_0000 + g[7]
}

/// The value of head groups, then zero groups, then tail groups. In the
/// strict flavour the `::` must stand for at least one zero group; the
/// lenient flavour also admits a `::` standing for none, though never
/// after a full head of eight groups.
pub open spec fn combine_v6(H: Seq<Seq<char>>, T: Seq<Seq<char>>, strict: bool) -> Option<u128> {
    match (head_groups(H), tail_groups(T, strict)) {
        (Some(gh), Some(gt)) => if gh.len() <= 7 && gh.len() + gt.len() <= (if strict {
            7int
        } else {
            8int
        }) {
            Some((v6_of_groups(gh + zero_groups(8 - gh.len() - gt.len()) + gt) as u128))
        } else {
            None
        },
        _ => None,
    }
}

/// The IPv6 value written by the text `s`, if `s` is a valid IPv6 address:
/// colon-separated hexadecimal groups, at most one `::`, and optionally a
/// trailing embedded IPv4 address.
pub open spec fn spec_parse_ipv6(s: Seq<char>, strict: bool) -> Option<u128> {
    let P = split_on(s, ':');
    let k = first_empty(P);
    if k == -1 {
        match tail_groups(P, strict) {
            Some(g) => if g.len() == 8 {
                Some((v6_of_groups(g) as u128))
            } else {
                None
            },
            None => None,
        }
    } else if k == 0 {
        if P.len() >= 3 && P[1].len() == 0 {
            if P.len() == 3 && P[2].len() == 0 {
                combine_v6(Seq::empty(), Seq::empty(), strict)
            } else {
                combine_v6(Seq::empty(), P.skip(2), strict)
            }
        } else {
            None
        }
    } else {
        if k + 1 < P.len() {
            if k + 1 == P.len() - 1 && P[P.len() - 1].len() == 0 {
                combine_v6(P.take(k), Seq::empty(), strict)
            } else {
                combine_v6(P.take(k), P.skip(k + 1), strict)
            }
        } else {
            None
        }
    }
}

/// The view of a sub-list of parts.
pub open spec fn parts_view(parts: Seq<Vec<char>>, from: int, to: int) -> Seq<Seq<char>> {
    Seq::new((to - from) as nat, |k: int| parts[from + k]@)
}

/// Reads the parts `from..to` as group values; the last part may be an
/// embedded IPv4 address when `allow_v4` is set.
fn groups_of_parts(parts: &Vec<Vec<char>>, from: usize, to: usize, strict: bool, allow_v4: bool) -> (r:
    Option<Vec<u16>>)
    requires
        from <= to <= parts@.len(),
    ensures
        ({
            let gs = if allow_v4 {
                tail_groups(parts_view(parts@, from as int, to as int), strict)
            } else {
                head_groups(parts_view(parts@, from as int, to as int))
            };
            match r {
                Some(g) => {
                    &&& gs is Some
                    &&& g@.len() == gs->0.len()
                    &&& forall|k: int| 0 <= k < g@.len() ==> g@[k] as int == gs->0[k]
                },
                None => gs is None,
            }
        }),
{
    let ghost P = parts_view(parts@, from as int, to as int);
    let mut g: Vec<u16> = Vec::new();
    let mut i: usize = from;
    while i < to
        invariant
            from <= i <= to <= parts@.len(),
            P == parts_view(parts@, from as int, to as int),
            g@.len() == i - from,
            forall|k: int| 0 <= k < i - from ==> is_group_text(P[k]),
            forall|k: int| 0 <= k < i - from ==> g@[k] as int == hex_val(P[k]),
        decreases to - i,
    {
        if allow_v4 && i == to - 1 {
            if let Some(v) = parse_ipv4_chars(&parts[i], strict) {
                let hi: u16 = (v / 0x10000) as u16;
                let lo: u16 = (v % 0x10000) as u16;
                assert(hi as int == v as int / 0x10000 && lo as int == v as int % 0x10000);
                g.push(hi);
                g.push(lo);
                proof {
                    let front = P.drop_last();
                    assert(P.last() == parts@[to - 1]@);
                    assert(forall|k: int| 0 <= k < front.len() ==> front[k] == P[k]);
                    assert(head_groups(front) is Some);
                    let gh = head_groups(front)->0;
                    let gs = tail_groups(P, strict)->0;
                    assert(gs =~= gh + seq![v as int / 0x10000, v as int % 0x10000]);
                }
                return Some(g);
            }
        }
        match group_of(&parts[i]) {
            Some(h) => {
                g.push(h);
                assert(P[i - from as int] == parts@[i as int]@);
            },
            None => {
                proof {
                    assert(P[i - from as int] == parts@[i as int]@);
                    assert(!is_group_text(P[i - from as int]));
                    if P.len() > 0 {
                        if i < to - 1 {
                            let front = P.drop_last();
                            assert(front[i - from as int] == P[i - from as int]);
                            assert(head_groups(front) is None);
                        }
                        assert(head_groups(P) is None);
                        if allow_v4 && i == to - 1 {
                            assert(P.last() == parts@[i as int]@);
                        }
                    }
                }
                return None;
            },
        }
        i = i + 1;
    }
    proof {
        if P.len() == 0 {
            assert(g@.len() == 0);
        } else {
            let gs = if allow_v4 {
                tail_groups(P, strict)
            } else {
                head_groups(P)
            };
            assert(P.last() == parts@[to - 1]@);
            if allow_v4 {
                assert(is_group_text(P.last()));
                lemma_group_not_ipv4(P.last(), strict);
            }
            assert(head_groups(P) is Some);
            assert(gs is Some);
            assert(g@.len() == gs->0.len());
        }
    }
    Some(g)
}

/// A hexadecimal group never reads as a dotted-quad address: it has no dot.
proof fn lemma_group_not_ipv4(t: Seq<char>, strict: bool)
    requires
        is_group_text(t),
    ensures
        spec_parse_ipv4(t, strict) is None,
{
    let dots = split_on(t, '.');
    if dots.len() == 4 && (forall|k: int| 0 <= k < 4 ==> is_octet_text(dots[k], strict)) {
        lemma_split_no_sep(t, '.');
        assert(!t.contains('.'));
        assert(dots.len() == 1);
    }
}

/// The address value of eight groups held in a `Vec`.
fn v6_value(g: &Vec<u16>) -> (v: u128)
    requires
        g@.len() == 8,
    ensures
        v as int == v6_of_groups(g@.map_values(|x: u16| x as int)),
{
    let v: u128 = (g[0] as u128) * 0x1_0000_0000_0000_0000_0000_0000_0000 + (g[1] as u128)
        * 0x1_0000_0000_0000_0000_0000_0000 + (g[2] as u128) * 0x1_0000_0000_0000_0000_0000 + (
    g[3] as u128) * 0x1_0000_0000_0000_0000 + (g[4] as u128) * 0x1_0000_0000_0000 + (g[5] as u128)
        * 0x1_0000_0000 + (g[6] as u128) * 0x1_0000 + (g[7] as u128);
    proof {
        let gi = g@.map_values(|x: u16| x as int);
        assert(gi[0] == g@[0] as int && gi[1] == g@[1] as int && gi[2] == g@[2] as int && gi[3]
            == g@[3] as int && gi[4] == g@[4] as int && gi[5] == g@[5] as int && gi[6]
            == g@[6] as int && gi[7] == g@[7] as int);
    }
    v
}

/// Head groups, then the zero groups a `::` stands for, then tail groups.
fn assemble_groups(gh: &Vec<u16>, gt: &Vec<u16>) -> (full: Vec<u16>)
    requires
        gh@.len() + gt@.len() <= 8,
    ensures
        full@.len() == 8,
        forall|k: int| 0 <= k < gh@.len() ==> full@[k] == gh@[k],
        forall|k: int| gh@.len() <= k < 8 - gt@.len() ==> full@[k] == 0,
        forall|k: int| 0 <= k < gt@.len() ==> full@[8 - gt@.len() + k] == gt@[k],
{
    let mut full: Vec<u16> = Vec::new();
    let mut i: usize = 0;
    while i < gh.len()
        invariant
            i <= gh@.len(),
            full@.len() == i,
            forall|k: int| 0 <= k < i ==> full@[k] == gh@[k],
        decreases gh@.len() - i,
    {
        full.push(gh[i]);
        i = i + 1;
    }
    let zeros: usize = 8 - gh.len() - gt.len();
    let mut j: usize = 0;
    while j < zeros
        invariant
            j <= zeros,
            full@.len() == gh@.len() + j,
            forall|k: int| 0 <= k < gh@.len() ==> full@[k] == gh@[k],
            forall|k: int| gh@.len() <= k < gh@.len() + j ==> full@[k] == 0,
        decreases zeros - j,
    {
        full.push(0);
        j = j + 1;
    }
    let mut m: usize = 0;
    while m < gt.len()
        invariant
            m <= gt@.len(),
            zeros == 8 - gh@.len() - gt@.len(),
            full@.len() == gh@.len() + zeros + m,
            forall|k: int| 0 <= k < gh@.len() ==> full@[k] == gh@[k],
            forall|k: int| gh@.len() <= k < gh@.len() + zeros ==> full@[k] == 0,
            forall|k: int| 0 <= k < m ==> full@[gh@.len() + zeros + k] == gt@[k],
        decreases gt@.len() - m,
    {
        full.push(gt[m]);
        m = m + 1;
    }
    full
}

/// The value of head groups, zero groups, and tail groups, when the group
/// counts fit the flavour's cap; `None` otherwise.
fn combine_value(gh: &Vec<u16>, gt: &Vec<u16>, strict: bool, Ghost(ghs): Ghost<Seq<int>>, Ghost(
    gts,
): Ghost<Seq<int>>) -> (r: Option<u128>)
    requires
        gh@.len() == ghs.len(),
        forall|k: int| 0 <= k < ghs.len() ==> gh@[k] as int == ghs[k],
        gt@.len() == gts.len(),
        forall|k: int| 0 <= k < gts.len() ==> gt@[k] as int == gts[k],
    ensures
        r == (if ghs.len() <= 7 && ghs.len() + gts.len() <= (if strict {
            7int
        } else {
            8int
        }) {
            Some((v6_of_groups(ghs + zero_groups(8 - ghs.len() - gts.len()) + gts) as u128))
        } else {
            None::<u128>
        }),
{
    let cap: usize = if strict {
        7
    } else {
        8
    };
    if gh.len() <= 7 && gt.len() <= cap - gh.len() {
        let full = assemble_groups(gh, gt);
        let v = v6_value(&full);
        proof {
            let zn = 8 - ghs.len() - gts.len();
            let G = ghs + zero_groups(zn) + gts;
            assert(G.len() == 8);
            let fi = full@.map_values(|x: u16| x as int);
            assert forall|k: int| 0 <= k < 8 implies fi[k] == G[k] by {
                assert(fi[k] == full@[k] as int);
                if k < ghs.len() {
                    assert(full@[k] == gh@[k]);
                    assert(G[k] == ghs[k]);
                } else if k < ghs.len() + zn {
                    assert(full@[k] == 0);
                    assert(G[k] == zero_groups(zn)[k - ghs.len()]);
                } else {
                    assert(full@[k] == gt@[k - ghs.len() - zn]);
                    assert(G[k] == gts[k - ghs.len() - zn]);
                }
            }
            assert(fi =~= G);
        }
        Some(v)
    } else {
        None
    }
}

/// Parses `t` as an IPv6 address, per `spec_parse_ipv6`.
pub fn parse_ipv6_chars(t: &Vec<char>, strict: bool) -> (r: Option<u128>)
    ensures
        r == spec_parse_ipv6(t@, strict),
{
    let parts = split_chars(t, ':');
    let ghost P = split_on(t@, ':');
    let n = parts.len();
    proof {
        lemma_first_empty(P);
    }
    let mut idx: usize = 0;
    while idx < n && parts[idx].len() != 0
        invariant
            idx <= n,
            n == parts@.len(),
            parts@.len() == P.len(),
            forall|k: int| 0 <= k < P.len() ==> parts@[k]@ == P[k],
            forall|j: int| 0 <= j < idx ==> P[j].len() > 0,
        decreases n - idx,
    {
        idx = idx + 1;
    }
    let ghost fe = first_empty(P);
    proof {
        if idx == n {
            assert(fe == -1);
        } else {
            assert(P[idx as int].len() == 0);
            assert(fe == idx);
        }
    }
    if idx == n {
        match groups_of_parts(&parts, 0, n, strict, true) {
            Some(g) => {
                proof {
                    assert(parts_view(parts@, 0, n as int) =~= P);
                }
                if g.len() == 8 {
                    let v = v6_value(&g);
                    proof {
                        let gs = tail_groups(P, strict)->0;
                        assert(g@.map_values(|x: u16| x as int) =~= gs);
                    }
                    Some(v)
                } else {
                    None
                }
            },
            None => {
                proof {
                    assert(parts_view(parts@, 0, n as int) =~= P);
                }
                None
            },
        }
    } else if idx == 0 {
        if n >= 3 && parts[1].len() == 0 {
            proof {
                assert(head_groups(Seq::<Seq<char>>::empty()) == Some(Seq::<int>::empty()));
                assert(tail_groups(Seq::<Seq<char>>::empty(), strict) == Some(
                    Seq::<int>::empty(),
                ));
            }
            if n == 3 && parts[2].len() == 0 {
                let gh: Vec<u16> = Vec::new();
                let gt: Vec<u16> = Vec::new();
                let r = combine_value(&gh, &gt, strict, Ghost(Seq::empty()), Ghost(Seq::empty()));
                r
            } else {
                match groups_of_parts(&parts, 2, n, strict, true) {
                    Some(gt) => {
                        proof {
                            assert(parts_view(parts@, 2, n as int) =~= P.skip(2));
                        }
                        let gh: Vec<u16> = Vec::new();
                        let ghost gts = tail_groups(P.skip(2), strict)->0;
                        let r = combine_value(&gh, &gt, strict, Ghost(Seq::empty()), Ghost(gts));
                        r
                    },
                    None => {
                        proof {
                            assert(parts_view(parts@, 2, n as int) =~= P.skip(2));
                        }
                        None
                    },
                }
            }
        } else {
            None
        }
    } else {
        if idx + 1 < n {
            match groups_of_parts(&parts, 0, idx, strict, false) {
                Some(gh) => {
                    proof {
                        assert(parts_view(parts@, 0, idx as int) =~= P.take(idx as int));
                    }
                    let tail_is_empty = idx + 1 == n - 1 && parts[n - 1].len() == 0;
                    let gt_opt: Option<Vec<u16>> = if tail_is_empty {
                        Some(Vec::new())
                    } else {
                        groups_of_parts(&parts, idx + 1, n, strict, true)
                    };
                    proof {
                        assert(parts_view(parts@, idx + 1 as int, n as int) =~= P.skip(
                            idx + 1 as int,
                        ));
                    }
                    match gt_opt {
                        Some(gt) => {
                            proof {
                                if tail_is_empty {
                                    assert(tail_groups(Seq::<Seq<char>>::empty(), strict)
                                        == Some(Seq::<int>::empty()));
                                }
                            }
                            let ghost ghs = head_groups(P.take(idx as int))->0;
                            let ghost gts = if tail_is_empty {
                                Seq::<int>::empty()
                            } else {
                                tail_groups(P.skip(idx + 1 as int), strict)->0
                            };
                            let r = combine_value(&gh, &gt, strict, Ghost(ghs), Ghost(gts));
                            r
                        },
                        None => None,
                    }
                },
                None => {
                    proof {
                        assert(parts_view(parts@, 0, idx as int) =~= P.take(idx as int));
                    }
                    None
                },
            }
        } else {
            None
        }
    }
}

/// The address value written by `s`, of either family.
pub open spec fn spec_parse_ip(s: Seq<char>, strict: bool) -> Option<IpValue> {
    match spec_parse_ipv4(s, strict) {
        Some(v) => Some(IpValue::V4(v)),
        None => match spec_parse_ipv6(s, strict) {
            Some(v) => Some(IpValue::V6(v)),
            None => None,
        },
    }
}

/// Parses `t` as an IPv4 or IPv6 address, per `spec_parse_ip`.
pub fn parse_ip_chars(t: &Vec<char>, strict: bool) -> (r: Option<IpValue>)
    ensures
        r == spec_parse_ip(t@, strict),
{
    match parse_ipv4_chars(t, strict) {
        Some(v) => Some(IpValue::V4(v)),
        None => match parse_ipv6_chars(t, strict) {
            Some(v) => Some(IpValue::V6(v)),
            None => None,
        },
    }
}

pub open spec fn dec_digit_char(d: int) -> char {
    ((48 + d) as u8) as char
}

/// The canonical decimal writing of `n`, without leading zeros.
pub open spec fn dec_str(n: int) -> Seq<char>
    decreases n,
{
    if n < 10 {
        seq![dec_digit_char(n)]
    } else {
        dec_str(n / 10) + seq![dec_digit_char(n % 10)]
    }
}

pub open spec fn hex_digit_char(d: int) -> char {
    if d < 10 {
        ((48 + d) as u8) as char
    } else {
        ((87 + d) as u8) as char
    }
}

/// The canonical lower-case hexadecimal writing of `n`.
pub open spec fn hex_str(n: int) -> Seq<char>
    decreases n,
{
    if n < 16 {
        seq![hex_digit_char(n)]
    } else {
        hex_str(n / 16) + seq![hex_digit_char(n % 16)]
    }
}

/// The dotted-quad writing of the IPv4 value `v`.
pub open spec fn ipv4_str(v: int) -> Seq<char> {
    dec_str(v / 0x1000000 % 256) + seq!['.'] + dec_str(v / 0x10000 % 256) + seq!['.'] + dec_str(
        v / 0x100 % 256,
    ) + seq!['.'] + dec_str(v % 256)
}

/// Appends the decimal writing of `n`.
pub fn push_dec(s: &mut String, n: u32)
    ensures
        final(s)@ == old(s)@ + dec_str(n as int),
    decreases n,
{
    if n >= 10 {
        push_dec(s, n / 10);
        let d: u32 = n % 10;
        s.push(((48 + d) as u8) as char);
        assert(final(s)@ =~= old(s)@ + dec_str(n as int));
    } else {
        s.push(((48 + n) as u8) as char);
        assert(final(s)@ =~= old(s)@ + dec_str(n as int));
    }
}

/// Appends the lower-case hexadecimal writing of `n`.
pub fn push_hex(s: &mut String, n: u32)
    ensures
        final(s)@ == old(s)@ + hex_str(n as int),
    decreases n,
{
    if n >= 16 {
        push_hex(s, n / 16);
        let d: u32 = n % 16;
        if d < 10 {
            s.push(((48 + d) as u8) as char);
        } else {
            s.push(((87 + d) as u8) as char);
        }
        assert(final(s)@ =~= old(s)@ + hex_str(n as int));
    } else {
        if n < 10 {
            s.push(((48 + n) as u8) as char);
        } else {
            s.push(((87 + n) as u8) as char);
        }
        assert(final(s)@ =~= old(s)@ + hex_str(n as int));
    }
}

/// Appends the dotted-quad writing of `v`.
fn push_ipv4(s: &mut String, v: u32)
    ensures
        final(s)@ == old(s)@ + ipv4_str(v as int),
{
    push_dec(s, v / 0x1000000);
    s.push('.');
    push_dec(s, v / 0x10000 % 256);
    s.push('.');
    push_dec(s, v / 0x100 % 256);
    s.push('.');
    push_dec(s, v % 256);
    assert(v as int / 0x1000000 % 256 == v as int / 0x1000000);
    assert(final(s)@ =~= old(s)@ + ipv4_str(v as int));
}

/// The dotted-quad text of `v`.
pub fn ipv4_string(v: u32) -> (r: String)
    ensures
        r@ == ipv4_str(v as int),
{
    let mut s = String::new();
    push_ipv4(&mut s, v);
    assert(s@ =~= ipv4_str(v as int));
    s
}

/// The eight group values of the IPv6 value `v`, highest first.
pub open spec fn v6_groups_of(v: int) -> Seq<int> {
    seq![
        v / 0x1_0000_0000_0000_0000_0000_0000_0000 % 0x10000,
        v / 0x1_0000_0000_0000_0000_0000_0000 % 0x10000,
        v / 0x1_0000_0000_0000_0000_0000 % 0x10000,
        v / 0x1_0000_0000_0000_0000 % 0x10000,
        v / 0x1_0000_0000_0000 % 0x10000,
        v / 0x1_0000_0000 % 0x10000,
        v / 0x1_0000 % 0x10000,
        v % 0x10000,
    ]
}

/// The length of the run of zero groups starting at `i`.
pub open spec fn run_len(g: Seq<int>, i: int) -> int
    decreases g.len() - i,
{
    if i < 0 || i >= g.len() || g[i] != 0 {
        0
    } else {
        1 + run_len(g, i + 1)
    }
}

/// The start of the longest run of two or more zero groups at or after `i`,
/// the leftmost on a tie, or -1 if none.
pub open spec fn best_zero_run(g: Seq<int>, i: int) -> int
    decreases g.len() - i,
{
    if i >= g.len() {
        -1
    } else {
        let rest = best_zero_run(g, i + 1);
        let cur = run_len(g, i);
        if cur >= 2 && (rest == -1 || cur >= run_len(g, rest)) {
            i
        } else {
            rest
        }
    }
}

/// The group values joined with ':' in hexadecimal.
pub open spec fn join_hex(g: Seq<int>) -> Seq<char>
    decreases g.len(),
{
    if g.len() == 0 {
        Seq::empty()
    } else if g.len() == 1 {
        hex_str(g[0])
    } else {
        join_hex(g.drop_last()) + seq![':'] + hex_str(g.last())
    }
}

/// The canonical text of the IPv6 value `v`: an IPv4-mapped address in its
/// dotted form, otherwise hexadecimal groups with the longest zero run
/// written `::`.
pub open spec fn ipv6_str(v: int) -> Seq<char> {
    let g = v6_groups_of(v);
    if g[0] == 0 && g[1] == 0 && g[2] == 0 && g[3] == 0 && g[4] == 0 && g[5] == 0xffff {
        "::ffff:"@ + ipv4_str(v % 0x1_0000_0000)
    } else {
        let b = best_zero_run(g, 0);
        if b == -1 {
            join_hex(g)
        } else {
            join_hex(g.take(b)) + "::"@ + join_hex(g.skip(b + run_len(g, b)))
        }
    }
}

/// The run of zero groups starting at `i`, mirroring `run_len`.
fn run_len_exec(g: &Vec<u16>, i: usize) -> (r: usize)
    requires
        i <= g@.len(),
    ensures
        r == run_len(g@.map_values(|x: u16| x as int), i as int),
        r <= g@.len() - i,
    decreases g@.len() - i,
{
    let ghost gi = g@.map_values(|x: u16| x as int);
    if i >= g.len() || g[i] != 0 {
        assert(i < g@.len() ==> gi[i as int] == g@[i as int] as int);
        0
    } else {
        assert(gi[i as int] == 0);
        let rest = run_len_exec(g, i + 1);
        1 + rest
    }
}

/// The best zero run at or after `i`, mirroring `best_zero_run`.
fn best_zero_run_exec(g: &Vec<u16>, i: usize) -> (r: Option<usize>)
    requires
        i <= g@.len(),
    ensures
        match r {
            Some(j) => best_zero_run(g@.map_values(|x: u16| x as int), i as int) == j && i <= j
                < g@.len(),
            None => best_zero_run(g@.map_values(|x: u16| x as int), i as int) == -1,
        },
    decreases g@.len() - i,
{
    if i >= g.len() {
        None
    } else {
        let rest = best_zero_run_exec(g, i + 1);
        let cur = run_len_exec(g, i);
        match rest {
            Some(j) => {
                let rl = run_len_exec(g, j);
                if cur >= 2 && cur >= rl {
                    Some(i)
                } else {
                    Some(j)
                }
            },
            None => {
                if cur >= 2 {
                    Some(i)
                } else {
                    None
                }
            },
        }
    }
}

/// Appends groups `from..to` joined with ':' in hexadecimal.
fn push_join(s: &mut String, g: &Vec<u16>, from: usize, to: usize)
    requires
        from <= to <= g@.len(),
    ensures
        final(s)@ == old(s)@ + join_hex(
            g@.map_values(|x: u16| x as int).subrange(from as int, to as int),
        ),
{
    let ghost gi = g@.map_values(|x: u16| x as int);
    let mut i: usize = from;
    while i < to
        invariant
            from <= i <= to <= g@.len(),
            gi == g@.map_values(|x: u16| x as int),
            s@ == old(s)@ + join_hex(gi.subrange(from as int, i as int)),
        decreases to - i,
    {
        proof {
            assert(gi.subrange(from as int, i as int) =~= gi.subrange(
                from as int,
                i + 1 as int,
            ).drop_last());
            assert(gi.subrange(from as int, i + 1 as int).last() == gi[i as int]);
            assert(gi[i as int] == g@[i as int] as int);
        }
        if i > from {
            s.push(':');
        }
        push_hex(s, g[i] as u32);
        i = i + 1;
        proof {
            let sub = gi.subrange(from as int, i as int);
            if sub.len() == 1 {
                assert(join_hex(sub) == hex_str(sub[0]));
                assert(s@ =~= old(s)@ + join_hex(sub));
            } else {
                assert(s@ =~= old(s)@ + join_hex(sub));
            }
        }
    }
    proof {
        if from == to {
            assert(gi.subrange(from as int, to as int) =~= Seq::<int>::empty());
            assert(s@ =~= old(s)@ + join_hex(gi.subrange(from as int, to as int)));
        }
    }
}

/// The canonical text of `v`, per `ipv6_str`.
pub fn ipv6_string(v: u128) -> (r: String)
    ensures
        r@ == ipv6_str(v as int),
{
    let g0: u16 = (v / 0x1_0000_0000_0000_0000_0000_0000_0000 % 0x10000) as u16;
    let g1: u16 = (v / 0x1_0000_0000_0000_0000_0000_0000 % 0x10000) as u16;
    let g2: u16 = (v / 0x1_0000_0000_0000_0000_0000 % 0x10000) as u16;
    let g3: u16 = (v / 0x1_0000_0000_0000_0000 % 0x10000) as u16;
    let g4: u16 = (v / 0x1_0000_0000_0000 % 0x10000) as u16;
    let g5: u16 = (v / 0x1_0000_0000 % 0x10000) as u16;
    let g6: u16 = (v / 0x1_0000 % 0x10000) as u16;
    let g7: u16 = (v % 0x10000) as u16;
    let mut g: Vec<u16> = Vec::new();
    g.push(g0);
    g.push(g1);
    g.push(g2);
    g.push(g3);
    g.push(g4);
    g.push(g5);
    g.push(g6);
    g.push(g7);
    let ghost gi = g@.map_values(|x: u16| x as int);
    proof {
        assert(gi =~= v6_groups_of(v as int));
    }
    let mut s = String::new();
    if g0 == 0 && g1 == 0 && g2 == 0 && g3 == 0 && g4 == 0 && g5 == 0xffff {
        s.append("::ffff:");
        push_ipv4(&mut s, (v % 0x1_0000_0000) as u32);
        assert(s@ =~= ipv6_str(v as int));
        s
    } else {
        match best_zero_run_exec(&g, 0) {
            None => {
                push_join(&mut s, &g, 0, 8);
                proof {
                    assert(gi.subrange(0, 8) =~= gi);
                    assert(s@ =~= ipv6_str(v as int));
                }
                s
            },
            Some(b) => {
                let l = run_len_exec(&g, b);
                push_join(&mut s, &g, 0, b);
                s.append("::");
                push_join(&mut s, &g, b + l, 8);
                proof {
                    assert(gi.subrange(0, b as int) =~= gi.take(b as int));
                    assert(gi.subrange(b + l as int, 8) =~= gi.skip(b + l as int));
                    assert(s@ =~= ipv6_str(v as int));
                }
                s
            },
        }
    }
}

/// The decimal writing of `n` is digits only, short for small values, and
/// carries no leading zero.
pub proof fn lemma_dec_str_shape(n: int)
    requires
        0 <= n,
    ensures
        all_dec_digits(dec_str(n)),
        1 <= dec_str(n).len(),
        n < 10 ==> dec_str(n).len() == 1,
        n < 100 ==> dec_str(n).len() <= 2,
        n < 1000 ==> dec_str(n).len() <= 3,
        n >= 1 ==> dec_str(n)[0] != '0',
        dec_str(n).len() > 1 ==> dec_str(n)[0] != '0',
    decreases n,
{
    if n < 10 {
        assert(is_dec_digit(dec_digit_char(n)));
        if n >= 1 {
            assert(dec_digit_char(n) as int == 48 + n);
            assert('0' as int == 48);
        }
    } else {
        lemma_dec_str_shape(n / 10);
        let pre = dec_str(n / 10);
        let whole = pre + seq![dec_digit_char(n % 10)];
        assert(is_dec_digit(dec_digit_char(n % 10)));
        assert forall|k: int| 0 <= k < whole.len() implies is_dec_digit(whole[k]) by {
            if k < pre.len() {
                assert(whole[k] == pre[k]);
            }
        }
        assert(whole[0] == pre[0]);
        assert(n / 10 >= 1);
        assert(pre[0] != '0');
    }
}

/// Reading the decimal writing of `n` back gives `n`.
pub proof fn lemma_dec_str_val(n: int)
    requires
        0 <= n,
    ensures
        dec_val(dec_str(n)) == n,
    decreases n,
{
    if n < 10 {
        let u = seq![dec_digit_char(n)];
        assert(dec_str(n) == u);
        assert(u.drop_last() =~= Seq::<char>::empty());
        assert(u.last() == dec_digit_char(n));
        assert(dec_digit_char(n) as int == 48 + n);
        assert(dec_val(Seq::<char>::empty()) == 0);
        assert(dec_val(u) == dec_val(u.drop_last()) * 10 + dec_digit_val(u.last()));
        assert(dec_val(u) == dec_digit_val(dec_digit_char(n)));
    } else {
        lemma_dec_str_val(n / 10);
        let pre = dec_str(n / 10);
        let whole = pre + seq![dec_digit_char(n % 10)];
        assert(whole.drop_last() =~= pre);
        assert(whole.last() == dec_digit_char(n % 10));
    }
}

/// Digit text holds no separator characters.
pub proof fn lemma_digits_no_sep(t: Seq<char>, sep: char)
    requires
        all_dec_digits(t),
        !is_dec_digit(sep),
    ensures
        !t.contains(sep),
{
    if t.contains(sep) {
        let k = choose|k: int| 0 <= k < t.len() && t[k] == sep;
        assert(is_dec_digit(t[k]));
    }
}

/// Splitting text that starts with a separator-free part, then the
/// separator, yields that part and then the split of the rest.
pub proof fn lemma_split_prepend(a: Seq<char>, b: Seq<char>, sep: char)
    requires
        !a.contains(sep),
    ensures
        split_on(a + seq![sep] + b, sep) == seq![a] + split_on(b, sep),
    decreases a.len(),
{
    let s = a + seq![sep] + b;
    if a.len() == 0 {
        assert(s[0] == sep);
        assert(s.skip(1) =~= b);
        assert(split_on(s, sep) =~= seq![a] + split_on(b, sep)) by {
            assert(split_on(s, sep) == seq![Seq::<char>::empty()] + split_on(b, sep));
            assert(a =~= Seq::<char>::empty());
        }
    } else {
        assert(s[0] == a[0]);
        assert(a[0] != sep);
        assert(!a.skip(1).contains(sep)) by {
            if a.skip(1).contains(sep) {
                let k = choose|k: int| 0 <= k < a.skip(1).len() && a.skip(1)[k] == sep;
                assert(a[k + 1] == sep);
            }
        }
        lemma_split_prepend(a.skip(1), b, sep);
        assert(s.skip(1) =~= a.skip(1) + seq![sep] + b);
        let r = split_on(s.skip(1), sep);
        assert(r == seq![a.skip(1)] + split_on(b, sep));
        lemma_split_on_len_pos(b, sep);
        assert(r[0] == a.skip(1));
        assert(seq![s[0]] + r[0] =~= a);
        assert(r.skip(1) =~= split_on(b, sep));
        assert(split_on(s, sep) =~= seq![a] + split_on(b, sep));
    }
}

proof fn lemma_split_on_len_pos(s: Seq<char>, sep: char)
    ensures
        split_on(s, sep).len() >= 1,
    decreases s.len(),
{
    if s.len() != 0 {
        lemma_split_on_len_pos(s.skip(1), sep);
    }
}

/// Parsing the canonical text of an address gives that address back, in
/// the strict grammar and so also in the lenient one.
#[verifier::rlimit(100)]
pub proof fn lemma_ipv4_round_trip(a: u32, strict: bool)
    ensures
        spec_parse_ipv4(ipv4_str(a as int), strict) == Some(a),
{
    let x = a as int;
    let o0 = x / 0x1000000 % 256;
    let o1 = x / 0x10000 % 256;
    let o2 = x / 0x100 % 256;
    let o3 = x % 256;
    let d0 = dec_str(o0);
    let d1 = dec_str(o1);
    let d2 = dec_str(o2);
    let d3 = dec_str(o3);
    lemma_dec_str_shape(o0);
    lemma_dec_str_shape(o1);
    lemma_dec_str_shape(o2);
    lemma_dec_str_shape(o3);
    lemma_dec_str_val(o0);
    lemma_dec_str_val(o1);
    lemma_dec_str_val(o2);
    lemma_dec_str_val(o3);
    lemma_digits_no_sep(d0, '.');
    lemma_digits_no_sep(d1, '.');
    lemma_digits_no_sep(d2, '.');
    lemma_digits_no_sep(d3, '.');
    let s = ipv4_str(x);
    let rest1 = d1 + seq!['.'] + d2 + seq!['.'] + d3;
    let rest2 = d2 + seq!['.'] + d3;
    assert(s =~= d0 + seq!['.'] + rest1);
    lemma_split_prepend(d0, rest1, '.');
    assert(rest1 =~= d1 + seq!['.'] + rest2);
    lemma_split_prepend(d1, rest2, '.');
    lemma_split_prepend(d2, d3, '.');
    lemma_split_no_sep(d3, '.');
    let parts = split_on(s, '.');
    assert(parts =~= seq![d0, d1, d2, d3]);
    assert(is_octet_text(d0, strict) && is_octet_text(d1, strict) && is_octet_text(d2, strict)
        && is_octet_text(d3, strict));
    assert(x == o0 * 0x1000000 + o1 * 0x10000 + o2 * 0x100 + o3) by {
        assert(a == (a / 0x1000000 % 256) * 0x1000000 + (a / 0x10000 % 256) * 0x10000 + (a / 0x100
            % 256) * 0x100 + a % 256) by (bit_vector);
    }
}

/// Distinct addresses have distinct canonical texts.
pub proof fn lemma_ipv4_str_injective(a: u32, b: u32)
    requires
        ipv4_str(a as int) == ipv4_str(b as int),
    ensures
        a == b,
{
    lemma_ipv4_round_trip(a, true);
    lemma_ipv4_round_trip(b, true);
}

/// An enumeration of consecutive IPv4 addresses never repeats a text:
/// each entry is the canonical form of its own address.
pub proof fn lemma_ipv4_enumeration_distinct(first: int, v: Seq<Seq<char>>)
    requires
        0 <= first,
        first + v.len() <= 0x1_0000_0000,
        forall|k: int| 0 <= k < v.len() ==> v[k] == ipv4_str(first + k),
    ensures
        forall|k1: int, k2: int| 0 <= k1 < k2 < v.len() ==> v[k1] != v[k2],
{
    assert forall|k1: int, k2: int| 0 <= k1 < k2 < v.len() implies v[k1] != v[k2] by {
        if v[k1] == v[k2] {
            lemma_ipv4_str_injective((first + k1) as u32, (first + k2) as u32);
        }
    }
}

/// The hexadecimal writing of `n` is hex digits only, and short for group
/// values.
pub proof fn lemma_hex_str_shape(n: int)
    requires
        0 <= n,
    ensures
        all_hex_digits(hex_str(n)),
        1 <= hex_str(n).len(),
        n < 0x10000 ==> hex_str(n).len() <= 4,
        n < 0x1000 ==> hex_str(n).len() <= 3,
        n < 0x100 ==> hex_str(n).len() <= 2,
        n < 0x10 ==> hex_str(n).len() == 1,
    decreases n,
{
    if n < 16 {
        assert(is_hex_digit(hex_digit_char(n))) by {
            if n < 10 {
                assert(hex_digit_char(n) as int == 48 + n);
            } else {
                assert(hex_digit_char(n) as int == 87 + n);
            }
        }
    } else {
        lemma_hex_str_shape(n / 16);
        let pre = hex_str(n / 16);
        let whole = pre + seq![hex_digit_char(n % 16)];
        assert(is_hex_digit(hex_digit_char(n % 16))) by {
            if n % 16 < 10 {
                assert(hex_digit_char(n % 16) as int == 48 + n % 16);
            } else {
                assert(hex_digit_char(n % 16) as int == 87 + n % 16);
            }
        }
        assert forall|k: int| 0 <= k < whole.len() implies is_hex_digit(whole[k]) by {
            if k < pre.len() {
                assert(whole[k] == pre[k]);
            }
        }
    }
}

/// Reading the hexadecimal writing of `n` back gives `n`.
pub proof fn lemma_hex_str_val(n: int)
    requires
        0 <= n,
    ensures
        hex_val(hex_str(n)) == n,
    decreases n,
{
    if n < 16 {
        let u = seq![hex_digit_char(n)];
        assert(hex_str(n) == u);
        assert(u.drop_last() =~= Seq::<char>::empty());
        assert(u.last() == hex_digit_char(n));
        assert(hex_val(Seq::<char>::empty()) == 0);
        assert(hex_val(u) == hex_val(u.drop_last()) * 16 + hex_digit_val(u.last()));
        assert(hex_digit_val(hex_digit_char(n)) == n) by {
            if n < 10 {
                assert(hex_digit_char(n) as int == 48 + n);
            } else {
                assert(hex_digit_char(n) as int == 87 + n);
            }
        }
    } else {
        lemma_hex_str_val(n / 16);
        let pre = hex_str(n / 16);
        let whole = pre + seq![hex_digit_char(n % 16)];
        assert(whole.drop_last() =~= pre);
        assert(whole.last() == hex_digit_char(n % 16));
        assert(hex_digit_val(hex_digit_char(n % 16)) == n % 16) by {
            if n % 16 < 10 {
                assert(hex_digit_char(n % 16) as int == 48 + n % 16);
            } else {
                assert(hex_digit_char(n % 16) as int == 87 + n % 16);
            }
        }
    }
}

/// Hexadecimal text holds no separator characters.
pub proof fn lemma_hex_no_sep(t: Seq<char>, sep: char)
    requires
        all_hex_digits(t),
        !is_hex_digit(sep),
    ensures
        !t.contains(sep),
{
    if t.contains(sep) {
        let k = choose|k: int| 0 <= k < t.len() && t[k] == sep;
        assert(is_hex_digit(t[k]));
    }
}

/// Neither half of a concatenation holding `c` means the whole holds none.
pub proof fn lemma_concat_no_char(a: Seq<char>, b: Seq<char>, c: char)
    requires
        !a.contains(c),
        !b.contains(c),
    ensures
        !(a + b).contains(c),
{
    if (a + b).contains(c) {
        let k = choose|k: int| 0 <= k < (a + b).len() && (a + b)[k] == c;
        if k < a.len() {
            assert(a[k] == c);
        } else {
            assert(b[k - a.len()] == c);
        }
    }
}

/// A dotted-quad text holds no colon.
pub proof fn lemma_ipv4_str_no_colon(v: int)
    requires
        0 <= v,
    ensures
        !ipv4_str(v).contains(':'),
{
    let o0 = v / 0x1000000 % 256;
    let o1 = v / 0x10000 % 256;
    let o2 = v / 0x100 % 256;
    let o3 = v % 256;
    lemma_dec_str_shape(o0);
    lemma_dec_str_shape(o1);
    lemma_dec_str_shape(o2);
    lemma_dec_str_shape(o3);
    lemma_digits_no_sep(dec_str(o0), ':');
    lemma_digits_no_sep(dec_str(o1), ':');
    lemma_digits_no_sep(dec_str(o2), ':');
    lemma_digits_no_sep(dec_str(o3), ':');
    assert(!seq!['.'].contains(':')) by {
        if seq!['.'].contains(':') {
            let k = choose|k: int| 0 <= k < 1 && seq!['.'][k] == ':';
        }
    }
    lemma_concat_no_char(dec_str(o0), seq!['.'], ':');
    lemma_concat_no_char(dec_str(o0) + seq!['.'], dec_str(o1), ':');
    lemma_concat_no_char(dec_str(o0) + seq!['.'] + dec_str(o1), seq!['.'], ':');
    lemma_concat_no_char(dec_str(o0) + seq!['.'] + dec_str(o1) + seq!['.'], dec_str(o2), ':');
    lemma_concat_no_char(
        dec_str(o0) + seq!['.'] + dec_str(o1) + seq!['.'] + dec_str(o2),
        seq!['.'],
        ':',
    );
    lemma_concat_no_char(
        dec_str(o0) + seq!['.'] + dec_str(o1) + seq!['.'] + dec_str(o2) + seq!['.'],
        dec_str(o3),
        ':',
    );
}

/// A join of two or more groups starts with its first group.
pub proof fn lemma_join_left(g: Seq<int>)
    requires
        g.len() >= 2,
    ensures
        join_hex(g) == hex_str(g[0]) + seq![':'] + join_hex(g.skip(1)),
    decreases g.len(),
{
    if g.len() == 2 {
        let d = g.drop_last();
        assert(d =~= seq![g[0]]);
        assert(join_hex(d) == hex_str(g[0]));
        assert(g.skip(1) =~= seq![g[1]]);
        assert(join_hex(g.skip(1)) == hex_str(g[1]));
        assert(g.last() == g[1]);
    } else {
        let d = g.drop_last();
        lemma_join_left(d);
        assert(d[0] == g[0]);
        assert(g.skip(1).drop_last() =~= d.skip(1));
        assert(g.skip(1).len() >= 2);
        assert(g.skip(1).last() == g.last());
        assert(join_hex(g.skip(1)) == join_hex(g.skip(1).drop_last()) + seq![':'] + hex_str(
            g.skip(1).last(),
        ));
        assert(join_hex(g) == join_hex(d) + seq![':'] + hex_str(g.last()));
        assert(join_hex(g) =~= hex_str(g[0]) + seq![':'] + join_hex(g.skip(1)));
    }
}

/// The texts of the groups of `g`, one part each.
pub open spec fn group_texts(g: Seq<int>) -> Seq<Seq<char>> {
    Seq::new(g.len(), |k: int| hex_str(g[k]))
}

/// Splitting a group join followed by a separator and more text yields
/// the group texts and then the split of the rest.
pub proof fn lemma_split_join_then(g: Seq<int>, rest: Seq<char>)
    requires
        g.len() >= 1,
        forall|k: int| 0 <= k < g.len() ==> 0 <= g[k],
    ensures
        split_on(join_hex(g) + seq![':'] + rest, ':') == group_texts(g) + split_on(rest, ':'),
    decreases g.len(),
{
    lemma_hex_str_shape(g[0]);
    lemma_hex_no_sep(hex_str(g[0]), ':');
    if g.len() == 1 {
        assert(join_hex(g) == hex_str(g[0]));
        lemma_split_prepend(hex_str(g[0]), rest, ':');
        assert(group_texts(g) =~= seq![hex_str(g[0])]);
        assert(split_on(join_hex(g) + seq![':'] + rest, ':') =~= group_texts(g) + split_on(
            rest,
            ':',
        ));
    } else {
        lemma_join_left(g);
        lemma_split_join_then(g.skip(1), rest);
        let tail_text = join_hex(g.skip(1)) + seq![':'] + rest;
        assert(join_hex(g) + seq![':'] + rest =~= hex_str(g[0]) + seq![':'] + tail_text);
        lemma_split_prepend(hex_str(g[0]), tail_text, ':');
        assert(split_on(tail_text, ':') == group_texts(g.skip(1)) + split_on(rest, ':'));
        assert(seq![hex_str(g[0])] + group_texts(g.skip(1)) =~= group_texts(g));
        assert(split_on(join_hex(g) + seq![':'] + rest, ':') =~= group_texts(g) + split_on(
            rest,
            ':',
        ));
    }
}

/// Splitting a group join yields exactly the group texts.
pub proof fn lemma_split_join(g: Seq<int>)
    requires
        g.len() >= 1,
        forall|k: int| 0 <= k < g.len() ==> 0 <= g[k],
    ensures
        split_on(join_hex(g), ':') == group_texts(g),
    decreases g.len(),
{
    lemma_hex_str_shape(g[0]);
    lemma_hex_no_sep(hex_str(g[0]), ':');
    if g.len() == 1 {
        assert(join_hex(g) == hex_str(g[0]));
        lemma_split_no_sep(hex_str(g[0]), ':');
        assert(split_on(join_hex(g), ':') =~= group_texts(g));
    } else {
        lemma_join_left(g);
        lemma_split_join(g.skip(1));
        let tail_text = join_hex(g.skip(1));
        assert(join_hex(g) =~= hex_str(g[0]) + seq![':'] + tail_text);
        lemma_split_prepend(hex_str(g[0]), tail_text, ':');
        assert(seq![hex_str(g[0])] + group_texts(g.skip(1)) =~= group_texts(g));
    }
}

/// A zero run really is zeros, and stays inside the groups.
pub proof fn lemma_run_len_props(g: Seq<int>, i: int)
    requires
        0 <= i <= g.len(),
    ensures
        0 <= run_len(g, i) <= g.len() - i,
        forall|k: int| i <= k < i + run_len(g, i) ==> g[k] == 0,
    decreases g.len() - i,
{
    if i < g.len() && g[i] == 0 {
        lemma_run_len_props(g, i + 1);
    }
}

/// A found best run lies inside the groups and spans at least two.
pub proof fn lemma_best_run_props(g: Seq<int>, i: int)
    requires
        0 <= i <= g.len(),
    ensures
        best_zero_run(g, i) == -1 || (i <= best_zero_run(g, i) < g.len() && run_len(
            g,
            best_zero_run(g, i),
        ) >= 2),
    decreases g.len() - i,
{
    if i < g.len() {
        lemma_best_run_props(g, i + 1);
    }
}

/// The first empty part is the one an all-nonempty prefix ends at.
pub proof fn lemma_first_empty_at(P: Seq<Seq<char>>, b: int)
    requires
        0 <= b < P.len(),
        P[b].len() == 0,
        forall|j: int| 0 <= j < b ==> P[j].len() > 0,
    ensures
        first_empty(P) == b,
{
    lemma_first_empty(P);
    let fe = first_empty(P);
    if fe == -1 {
        assert(P[b].len() > 0);
    } else if fe < b {
        assert(P[fe].len() > 0);
    } else if fe > b {
        assert(P[b].len() > 0);
    }
}

/// Reassembling the groups of a value gives the value back, and each
/// group is a sixteen-bit number.
pub proof fn lemma_v6_recompose(v: u128)
    ensures
        v6_of_groups(v6_groups_of(v as int)) == v as int,
        forall|k: int|
            0 <= k < 8 ==> 0 <= #[trigger] v6_groups_of(v as int)[k] < 0x10000,
{
    assert(v == (v / 0x1_0000_0000_0000_0000_0000_0000_0000 % 0x10000)
        * 0x1_0000_0000_0000_0000_0000_0000_0000 + (v / 0x1_0000_0000_0000_0000_0000_0000
        % 0x10000) * 0x1_0000_0000_0000_0000_0000_0000 + (v / 0x1_0000_0000_0000_0000_0000
        % 0x10000) * 0x1_0000_0000_0000_0000_0000 + (v / 0x1_0000_0000_0000_0000 % 0x10000)
        * 0x1_0000_0000_0000_0000 + (v / 0x1_0000_0000_0000 % 0x10000) * 0x1_0000_0000_0000 + (v
        / 0x1_0000_0000 % 0x10000) * 0x1_0000_0000 + (v / 0x1_0000 % 0x10000) * 0x1_0000 + v
        % 0x10000) by (bit_vector);
    let G = v6_groups_of(v as int);
    assert forall|k: int| 0 <= k < 8 implies 0 <= #[trigger] G[k] < 0x10000 by {
        vstd::arithmetic::div_mod::lemma_mod_bound(
            v as int / 0x1_0000_0000_0000_0000_0000_0000_0000,
            0x10000,
        );
        vstd::arithmetic::div_mod::lemma_mod_bound(
            v as int / 0x1_0000_0000_0000_0000_0000_0000,
            0x10000,
        );
        vstd::arithmetic::div_mod::lemma_mod_bound(
            v as int / 0x1_0000_0000_0000_0000_0000,
            0x10000,
        );
        vstd::arithmetic::div_mod::lemma_mod_bound(v as int / 0x1_0000_0000_0000_0000, 0x10000);
        vstd::arithmetic::div_mod::lemma_mod_bound(v as int / 0x1_0000_0000_0000, 0x10000);
        vstd::arithmetic::div_mod::lemma_mod_bound(v as int / 0x1_0000_0000, 0x10000);
        vstd::arithmetic::div_mod::lemma_mod_bound(v as int / 0x1_0000, 0x10000);
        vstd::arithmetic::div_mod::lemma_mod_bound(v as int, 0x10000);
    }
}

/// Whether a value's groups make it an IPv4-mapped address, written in
/// its dotted form.
pub open spec fn v6_is_mapped(g: Seq<int>) -> bool {
    g[0] == 0 && g[1] == 0 && g[2] == 0 && g[3] == 0 && g[4] == 0 && g[5] == 0xffff
}

#[verifier::rlimit(100)]
proof fn lemma_v6_rt_uncompressed(v: u128, strict: bool)
    requires
        !v6_is_mapped(v6_groups_of(v as int)),
        best_zero_run(v6_groups_of(v as int), 0) == -1,
    ensures
        spec_parse_ipv6(ipv6_str(v as int), strict) == Some(v),
{
    let x = v as int;
    let G = v6_groups_of(x);
    lemma_v6_recompose(v);
    assert(ipv6_str(x) == join_hex(G));
    lemma_split_join(G);
    let P = split_on(join_hex(G), ':');
    assert(P == group_texts(G));
    assert forall|j: int| 0 <= j < P.len() implies P[j].len() > 0 by {
        lemma_hex_str_shape(G[j]);
    }
    lemma_first_empty(P);
    assert(first_empty(P) == -1) by {
        if first_empty(P) != -1 {
            assert(P[first_empty(P)].len() > 0);
        }
    }
    assert forall|k: int| 0 <= k < P.len() implies is_group_text(#[trigger] P[k]) by {
        lemma_hex_str_shape(G[k]);
    }
    assert(P.last() == hex_str(G[7]));
    lemma_group_not_ipv4(P.last(), strict);
    assert(head_groups(P) is Some);
    let vals = head_groups(P)->0;
    assert forall|k: int| 0 <= k < 8 implies vals[k] == G[k] by {
        lemma_hex_str_val(G[k]);
    }
    assert(vals =~= G);
    assert(tail_groups(P, strict) == Some(G));
}

/// All parts of a group-text list are nonempty hexadecimal groups.
proof fn lemma_group_texts_ok(g: Seq<int>)
    requires
        forall|k: int| 0 <= k < g.len() ==> 0 <= #[trigger] g[k] < 0x10000,
    ensures
        forall|k: int| 0 <= k < g.len() ==> (#[trigger] group_texts(g)[k]).len() > 0,
        forall|k: int| 0 <= k < g.len() ==> is_group_text(#[trigger] group_texts(g)[k]),
{
    assert forall|k: int| 0 <= k < g.len() implies (#[trigger] group_texts(g)[k]).len() > 0
        && is_group_text(group_texts(g)[k]) by {
        lemma_hex_str_shape(g[k]);
    }
}

/// Group texts read back as their group values, never as an embedded
/// IPv4 address.
proof fn lemma_group_texts_read(g: Seq<int>, strict: bool)
    requires
        g.len() >= 1,
        forall|k: int| 0 <= k < g.len() ==> 0 <= #[trigger] g[k] < 0x10000,
    ensures
        tail_groups(group_texts(g), strict) == Some(g),
        head_groups(group_texts(g)) == Some(g),
{
    let P = group_texts(g);
    lemma_group_texts_ok(g);
    assert(P.last() == hex_str(g[g.len() - 1]));
    lemma_group_not_ipv4(P.last(), strict);
    assert(head_groups(P) is Some);
    let vals = head_groups(P)->0;
    assert forall|k: int| 0 <= k < g.len() implies vals[k] == g[k] by {
        lemma_hex_str_val(g[k]);
    }
    assert(vals =~= g);
}

/// Splitting the bare `::` text.
proof fn lemma_split_double_colon()
    ensures
        split_on(seq![':', ':'], ':') =~= seq![
            Seq::<char>::empty(),
            Seq::<char>::empty(),
            Seq::<char>::empty(),
        ],
{
    let s2 = seq![':', ':'];
    assert(s2.skip(1) =~= seq![':']);
    assert(seq![':'].skip(1) =~= Seq::<char>::empty());
    assert(split_on(Seq::<char>::empty(), ':') == seq![Seq::<char>::empty()]);
    assert(split_on(seq![':'], ':') =~= seq![Seq::<char>::empty(), Seq::<char>::empty()]);
}

#[verifier::rlimit(100)]
proof fn lemma_v6_rt_all_zero(v: u128, strict: bool)
    requires
        !v6_is_mapped(v6_groups_of(v as int)),
        best_zero_run(v6_groups_of(v as int), 0) == 0,
        run_len(v6_groups_of(v as int), 0) == 8,
    ensures
        spec_parse_ipv6(ipv6_str(v as int), strict) == Some(v),
{
    let x = v as int;
    let G = v6_groups_of(x);
    lemma_v6_recompose(v);
    let b = best_zero_run(G, 0);
    lemma_best_run_props(G, 0);
    let l = run_len(G, b);
    lemma_run_len_props(G, b);
    assert(0 <= b < 8 && l >= 2 && b + l <= 8);
    let A = G.take(b);
    let B = G.skip(b + l);
    let s = ipv6_str(x);
    reveal_strlit("::");
    assert("::"@ =~= seq![':', ':']);
    assert(s == join_hex(A) + "::"@ + join_hex(B));
    assert(A =~= Seq::<int>::empty());
    assert(join_hex(A) == Seq::<char>::empty());
    assert(B =~= Seq::<int>::empty());
    assert(join_hex(B) == Seq::<char>::empty());
    assert(s =~= seq![':', ':']);
    lemma_split_double_colon();
    let P = split_on(s, ':');
    assert(P.len() == 3 && P[0].len() == 0 && P[1].len() == 0 && P[2].len() == 0);
    assert(first_empty(P) == 0);
    assert(head_groups(Seq::<Seq<char>>::empty()) == Some(Seq::<int>::empty()));
    assert(tail_groups(Seq::<Seq<char>>::empty(), strict) == Some(Seq::<int>::empty()));
    let Gp = Seq::<int>::empty() + zero_groups(8) + Seq::<int>::empty();
    assert(Gp =~= G);
    assert(combine_v6(Seq::empty(), Seq::empty(), strict) == Some((v6_of_groups(Gp)
        as u128)));
}

#[verifier::rlimit(100)]
proof fn lemma_v6_rt_leading_run(v: u128, strict: bool)
    requires
        !v6_is_mapped(v6_groups_of(v as int)),
        best_zero_run(v6_groups_of(v as int), 0) == 0,
        run_len(v6_groups_of(v as int), 0) < 8,
    ensures
        spec_parse_ipv6(ipv6_str(v as int), strict) == Some(v),
{
    let x = v as int;
    let G = v6_groups_of(x);
    lemma_v6_recompose(v);
    let b = best_zero_run(G, 0);
    lemma_best_run_props(G, 0);
    let l = run_len(G, b);
    lemma_run_len_props(G, b);
    assert(0 <= b < 8 && l >= 2 && b + l <= 8);
    let A = G.take(b);
    let B = G.skip(b + l);
    let s = ipv6_str(x);
    reveal_strlit("::");
    assert("::"@ =~= seq![':', ':']);
    assert(s == join_hex(A) + "::"@ + join_hex(B));
    assert(A =~= Seq::<int>::empty());
    assert(join_hex(A) == Seq::<char>::empty());
    assert(B.len() == 8 - l >= 1);
    assert(forall|k: int| 0 <= k < B.len() ==> 0 <= #[trigger] B[k] < 0x10000);
    lemma_split_join(B);
    lemma_group_texts_ok(B);
    assert(s =~= seq![':'] + (seq![':'] + join_hex(B)));
    let inner = seq![':'] + join_hex(B);
    assert(inner.skip(1) =~= join_hex(B));
    assert(split_on(inner, ':') == seq![Seq::<char>::empty()] + group_texts(B));
    assert(s.skip(1) =~= inner);
    assert(s[0] == ':');
    let P = split_on(s, ':');
    assert(P == seq![Seq::<char>::empty()] + (seq![Seq::<char>::empty()] + group_texts(
        B,
    )));
    assert(P.len() == 2 + B.len() >= 3);
    assert(P[0].len() == 0 && P[1].len() == 0);
    assert(first_empty(P) == 0);
    assert(P[2] == group_texts(B)[0]);
    assert(P[2].len() > 0);
    assert(!(P.len() == 3 && P[2].len() == 0));
    assert(P.skip(2) =~= group_texts(B));
    lemma_group_texts_read(B, strict);
    let Gp = Seq::<int>::empty() + zero_groups(8 - B.len()) + B;
    assert(Gp =~= G) by {
        assert(forall|k: int| 0 <= k < l ==> G[k] == 0);
        assert(forall|k: int| 0 <= k < B.len() ==> B[k] == G[k + l]);
    }
    assert(combine_v6(Seq::empty(), P.skip(2), strict) == Some((v6_of_groups(Gp)
        as u128)));
}

#[verifier::rlimit(100)]
proof fn lemma_v6_rt_trailing_run(v: u128, strict: bool)
    requires
        !v6_is_mapped(v6_groups_of(v as int)),
        best_zero_run(v6_groups_of(v as int), 0) >= 1,
        best_zero_run(v6_groups_of(v as int), 0) + run_len(
            v6_groups_of(v as int),
            best_zero_run(v6_groups_of(v as int), 0),
        ) == 8,
    ensures
        spec_parse_ipv6(ipv6_str(v as int), strict) == Some(v),
{
    let x = v as int;
    let G = v6_groups_of(x);
    lemma_v6_recompose(v);
    let b = best_zero_run(G, 0);
    lemma_best_run_props(G, 0);
    let l = run_len(G, b);
    lemma_run_len_props(G, b);
    assert(0 <= b < 8 && l >= 2 && b + l <= 8);
    let A = G.take(b);
    let B = G.skip(b + l);
    let s = ipv6_str(x);
    reveal_strlit("::");
    assert("::"@ =~= seq![':', ':']);
    assert(s == join_hex(A) + "::"@ + join_hex(B));
    assert(A.len() == b >= 1);
    assert(forall|k: int| 0 <= k < A.len() ==> 0 <= #[trigger] A[k] < 0x10000);
    lemma_group_texts_ok(A);
    assert(B =~= Seq::<int>::empty());
    assert(join_hex(B) == Seq::<char>::empty());
    assert(s =~= join_hex(A) + seq![':'] + seq![':']);
    lemma_split_join_then(A, seq![':']);
    assert(seq![':'].skip(1) =~= Seq::<char>::empty());
    assert(split_on(Seq::<char>::empty(), ':') == seq![Seq::<char>::empty()]);
    assert(split_on(seq![':'], ':') =~= seq![Seq::<char>::empty(), Seq::<char>::empty()]);
    let P = split_on(s, ':');
    assert(P == group_texts(A) + seq![Seq::<char>::empty(), Seq::<char>::empty()]);
    assert(P.len() == b + 2);
    assert(P[b as int].len() == 0);
    assert(forall|j: int| 0 <= j < b ==> (#[trigger] P[j]).len() > 0);
    lemma_first_empty_at(P, b);
    assert(b + 1 < P.len());
    assert(b + 1 == P.len() - 1 && P[P.len() - 1].len() == 0);
    assert(P.take(b) =~= group_texts(A));
    lemma_group_texts_read(A, strict);
    assert(tail_groups(Seq::<Seq<char>>::empty(), strict) == Some(Seq::<int>::empty()));
    let Gp = A + zero_groups(8 - b) + Seq::<int>::empty();
    assert(Gp =~= G) by {
        assert(forall|k: int| b <= k < 8 ==> G[k] == 0);
    }
    assert(combine_v6(P.take(b), Seq::empty(), strict) == Some((v6_of_groups(Gp)
        as u128)));
}

#[verifier::rlimit(100)]
proof fn lemma_v6_rt_middle_run(v: u128, strict: bool)
    requires
        !v6_is_mapped(v6_groups_of(v as int)),
        best_zero_run(v6_groups_of(v as int), 0) >= 1,
        best_zero_run(v6_groups_of(v as int), 0) + run_len(
            v6_groups_of(v as int),
            best_zero_run(v6_groups_of(v as int), 0),
        ) < 8,
    ensures
        spec_parse_ipv6(ipv6_str(v as int), strict) == Some(v),
{
    let x = v as int;
    let G = v6_groups_of(x);
    lemma_v6_recompose(v);
    let b = best_zero_run(G, 0);
    lemma_best_run_props(G, 0);
    let l = run_len(G, b);
    lemma_run_len_props(G, b);
    assert(0 <= b < 8 && l >= 2 && b + l <= 8);
    let A = G.take(b);
    let B = G.skip(b + l);
    let s = ipv6_str(x);
    reveal_strlit("::");
    assert("::"@ =~= seq![':', ':']);
    assert(s == join_hex(A) + "::"@ + join_hex(B));
    assert(A.len() == b >= 1);
    assert(forall|k: int| 0 <= k < A.len() ==> 0 <= #[trigger] A[k] < 0x10000);
    lemma_group_texts_ok(A);
    assert(B.len() == 8 - b - l >= 1);
    assert(forall|k: int| 0 <= k < B.len() ==> 0 <= #[trigger] B[k] < 0x10000);
    lemma_group_texts_ok(B);
    lemma_split_join(B);
    let inner = seq![':'] + join_hex(B);
    assert(inner.skip(1) =~= join_hex(B));
    assert(split_on(inner, ':') == seq![Seq::<char>::empty()] + group_texts(B));
    assert(s =~= join_hex(A) + seq![':'] + inner);
    lemma_split_join_then(A, inner);
    let P = split_on(s, ':');
    assert(P == group_texts(A) + (seq![Seq::<char>::empty()] + group_texts(B)));
    assert(P.len() == b + 1 + B.len());
    assert(P[b as int].len() == 0);
    assert(forall|j: int| 0 <= j < b ==> (#[trigger] P[j]).len() > 0);
    lemma_first_empty_at(P, b);
    assert(b + 1 < P.len());
    assert(P[P.len() - 1] == group_texts(B)[B.len() - 1]);
    assert(P[P.len() - 1].len() > 0);
    assert(!(b + 1 == P.len() - 1 && P[P.len() - 1].len() == 0));
    assert(P.take(b) =~= group_texts(A));
    assert(P.skip(b + 1) =~= group_texts(B));
    lemma_group_texts_read(A, strict);
    lemma_group_texts_read(B, strict);
    let Gp = A + zero_groups(8 - A.len() - B.len()) + B;
    assert(Gp =~= G) by {
        assert(forall|k: int| b <= k < b + l ==> G[k] == 0);
        assert(forall|k: int| 0 <= k < B.len() ==> B[k] == G[k + b + l]);
    }
    assert(combine_v6(P.take(b), P.skip(b + 1), strict) == Some((v6_of_groups(Gp)
        as u128)));
}

proof fn lemma_v6_rt_compressed(v: u128, strict: bool)
    requires
        !v6_is_mapped(v6_groups_of(v as int)),
        best_zero_run(v6_groups_of(v as int), 0) != -1,
    ensures
        spec_parse_ipv6(ipv6_str(v as int), strict) == Some(v),
{
    let G = v6_groups_of(v as int);
    let b = best_zero_run(G, 0);
    lemma_best_run_props(G, 0);
    let l = run_len(G, b);
    lemma_run_len_props(G, b);
    if b == 0 {
        if l == 8 {
            lemma_v6_rt_all_zero(v, strict);
        } else {
            lemma_v6_rt_leading_run(v, strict);
        }
    } else {
        if b + l == 8 {
            lemma_v6_rt_trailing_run(v, strict);
        } else {
            lemma_v6_rt_middle_run(v, strict);
        }
    }
}

#[verifier::rlimit(100)]
proof fn lemma_v6_rt_mapped(v: u128, strict: bool)
    requires
        v6_is_mapped(v6_groups_of(v as int)),
    ensures
        spec_parse_ipv6(ipv6_str(v as int), strict) == Some(v),
{
    let x = v as int;
    let G = v6_groups_of(x);
    lemma_v6_recompose(v);
    let low = x % 0x1_0000_0000;
    let s = ipv6_str(x);
    reveal_strlit("::ffff:");
    assert("::ffff:"@.len() == 7);
    let ffff = seq!['f', 'f', 'f', 'f'];
    assert(s == "::ffff:"@ + ipv4_str(low));
    assert(s =~= seq![':'] + (seq![':'] + (ffff + seq![':'] + ipv4_str(low))));
    assert(!ffff.contains(':')) by {
        if ffff.contains(':') {
            let k = choose|k: int| 0 <= k < 4 && ffff[k] == ':';
        }
    }
    assert(0 <= low < 0x1_0000_0000) by {
        vstd::arithmetic::div_mod::lemma_mod_bound(x, 0x1_0000_0000);
    }
    lemma_ipv4_str_no_colon(low);
    lemma_split_no_sep(ipv4_str(low), ':');
    lemma_split_prepend(ffff, ipv4_str(low), ':');
    let rest2 = ffff + seq![':'] + ipv4_str(low);
    assert(split_on(rest2, ':') == seq![ffff] + seq![ipv4_str(low)]);
    let rest1 = seq![':'] + rest2;
    assert(rest1[0] == ':');
    assert(rest1.skip(1) =~= rest2);
    assert(split_on(rest1, ':') == seq![Seq::<char>::empty()] + split_on(rest2, ':'));
    assert(s[0] == ':');
    assert(s.skip(1) =~= rest1);
    let P = split_on(s, ':');
    assert(P == seq![Seq::<char>::empty()] + split_on(rest1, ':'));
    assert(P =~= seq![Seq::<char>::empty(), Seq::<char>::empty(), ffff, ipv4_str(low)]);
    assert(first_empty(P) == 0);
    assert(P.len() == 4 && P[1].len() == 0);
    assert(!(P.len() == 3));
    let T = P.skip(2);
    assert(T =~= seq![ffff, ipv4_str(low)]);
    lemma_ipv4_round_trip((low as u32), strict);
    assert((low as u32) as int == low);
    assert(spec_parse_ipv4(ipv4_str(low), strict) == Some((low as u32)));
    assert(T.last() == ipv4_str(low));
    assert(T.drop_last() =~= seq![ffff]);
    assert(is_group_text(ffff)) by {
        assert(is_hex_digit('f'));
    }
    assert(head_groups(seq![ffff]) is Some);
    assert(hex_val(ffff) == 0xffff) by {
        let f3 = seq!['f', 'f', 'f'];
        let f2 = seq!['f', 'f'];
        let f1 = seq!['f'];
        assert(ffff.drop_last() =~= f3);
        assert(f3.drop_last() =~= f2);
        assert(f2.drop_last() =~= f1);
        assert(f1.drop_last() =~= Seq::<char>::empty());
        assert(hex_val(Seq::<char>::empty()) == 0);
        assert(hex_digit_val('f') == 15);
        assert(hex_val(f1) == 15);
        assert(hex_val(f2) == 255);
        assert(hex_val(f3) == 4095);
    }
    let gh = head_groups(seq![ffff])->0;
    assert(gh =~= seq![0xffffint]);
    let lo32 = low as u32;
    let gt = gh + seq![lo32 as int / 0x10000, lo32 as int % 0x10000];
    assert(tail_groups(T, strict) == Some(gt));
    assert(gt.len() == 3);
    let Gp = Seq::<int>::empty() + zero_groups(8 - 3) + gt;
    assert(v % 0x1_0000_0000 / 0x1_0000 == v / 0x1_0000 % 0x1_0000) by (bit_vector);
    assert(v % 0x1_0000_0000 % 0x1_0000 == v % 0x1_0000) by (bit_vector);
    assert(Gp =~= G);
    assert(combine_v6(Seq::empty(), T, strict) == Some((v6_of_groups(Gp) as u128)));
}

/// Parsing the canonical text of an IPv6 address gives the address back:
/// the formatter's zero-run compression and dotted mapped form read back
/// as the value they were written from.
pub proof fn lemma_ipv6_round_trip(v: u128, strict: bool)
    ensures
        spec_parse_ipv6(ipv6_str(v as int), strict) == Some(v),
{
    let G = v6_groups_of(v as int);
    if v6_is_mapped(G) {
        lemma_v6_rt_mapped(v, strict);
    } else if best_zero_run(G, 0) == -1 {
        lemma_v6_rt_uncompressed(v, strict);
    } else {
        lemma_v6_rt_compressed(v, strict);
    }
}

/// Distinct IPv6 addresses have distinct canonical texts.
pub proof fn lemma_ipv6_str_injective(a: u128, b: u128)
    requires
        ipv6_str(a as int) == ipv6_str(b as int),
    ensures
        a == b,
{
    lemma_ipv6_round_trip(a, true);
    lemma_ipv6_round_trip(b, true);
}

/// An enumeration of consecutive IPv6 addresses never repeats a text:
/// each entry is the canonical form of its own address.
pub proof fn lemma_ipv6_enumeration_distinct(first: int, v: Seq<Seq<char>>)
    requires
        0 <= first,
        first + v.len() <= 0x1_0000_0000_0000_0000_0000_0000_0000_0000int,
        forall|k: int| 0 <= k < v.len() ==> v[k] == ipv6_str(first + k),
    ensures
        forall|k1: int, k2: int| 0 <= k1 < k2 < v.len() ==> v[k1] != v[k2],
{
    assert forall|k1: int, k2: int| 0 <= k1 < k2 < v.len() implies v[k1] != v[k2] by {
        if v[k1] == v[k2] {
            lemma_ipv6_str_injective((first + k1) as u128, (first + k2) as u128);
        }
    }
}

/// If `s` has no occurrence of `sep`, splitting yields the single part `s`.
pub proof fn lemma_split_no_sep(s: Seq<char>, sep: char)
    requires
        !s.contains(sep),
    ensures
        split_on(s, sep) =~= seq![s],
    decreases s.len(),
{
    if s.len() > 0 {
        assert(s[0] != sep);
        assert(!s.skip(1).contains(sep)) by {
            if s.skip(1).contains(sep) {
                let j = choose|j: int| 0 <= j < s.skip(1).len() && s.skip(1)[j] == sep;
                assert(s[j + 1] == sep);
            }
        }
        lemma_split_no_sep(s.skip(1), sep);
        let rest = split_on(s.skip(1), sep);
        assert(rest =~= seq![s.skip(1)]);
        assert(seq![s[0]] + rest[0] =~= s);
        assert(rest.skip(1) =~= Seq::<Seq<char>>::empty());
        assert((seq![seq![s[0]] + rest[0]] + rest.skip(1)) =~= seq![s]);
    } else {
        assert(s =~= Seq::<char>::empty());
        assert(split_on(s, sep) =~= seq![s]);
    }
}

} // verus!

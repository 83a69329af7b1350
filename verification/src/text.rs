//! The textual grammar of addresses and blocks, and verified scanners
//! for it: dotted-quad (V4) and colon-hex with `::` compression and an
//! embedded dotted-quad tail (V6).

use vstd::prelude::*;
use vstd::string::StrSliceExecFns;

verus! {

/// A decimal digit.
pub open spec fn is_digit(c: char) -> bool {
    48 <= c as u32 <= 57
}

/// The value of a decimal digit.
pub open spec fn digit_val(c: char) -> nat {
    (c as u32 - 48) as nat
}

/// A hexadecimal digit, either case.
pub open spec fn is_hex_digit(c: char) -> bool {
    is_digit(c) || 97 <= c as u32 <= 102 || 65 <= c as u32 <= 70
}

/// The value of a hexadecimal digit.
pub open spec fn hex_digit_val(c: char) -> nat {
    if is_digit(c) {
        digit_val(c)
    } else if 97 <= c as u32 {
        (c as u32 - 87) as nat
    } else {
        (c as u32 - 55) as nat
    }
}

/// Whether every character is a decimal digit.
pub open spec fn all_digits(s: Seq<char>) -> bool {
    forall|i: int| 0 <= i < s.len() ==> is_digit(s[i])
}

/// Whether every character is a hexadecimal digit.
pub open spec fn all_hex_digits(s: Seq<char>) -> bool {
    forall|i: int| 0 <= i < s.len() ==> is_hex_digit(s[i])
}

/// The value of a string of decimal digits, most significant first.
pub open spec fn dec_val(s: Seq<char>) -> nat
    decreases s.len(),
{
    if s.len() == 0 {
        0
    } else {
        dec_val(s.take(s.len() - 1)) * 10 + digit_val(s[s.len() - 1])
    }
}

/// The value of a string of hexadecimal digits, most significant first.
pub open spec fn hex_val(s: Seq<char>) -> nat
    decreases s.len(),
{
    if s.len() == 0 {
        0
    } else {
        hex_val(s.take(s.len() - 1)) * 16 + hex_digit_val(s[s.len() - 1])
    }
}

/// The index of the first occurrence of `c`, or the length when `c`
/// does not occur.
pub open spec fn find_ch(s: Seq<char>, c: char) -> nat
    decreases s.len(),
{
    if s.len() == 0 {
        0
    } else if s[0] == c {
        0
    } else {
        1 + find_ch(s.drop_first(), c)
    }
}

/// The index of the first occurrence of two adjacent colons, or the
/// length when there is none.
pub open spec fn find_2colon(s: Seq<char>) -> nat
    decreases s.len(),
{
    if s.len() < 2 {
        s.len()
    } else if s[0] == ':' && s[1] == ':' {
        0
    } else {
        1 + find_2colon(s.drop_first())
    }
}

/// A dotted-quad part: one to three decimal digits without a leading
/// zero, of value at most 255.
pub open spec fn spec_octet(s: Seq<char>) -> Option<u8> {
    if 1 <= s.len() <= 3 && all_digits(s) && (s.len() > 1 ==> s[0] != '0') && dec_val(s)
        <= 255 {
        Some(dec_val(s) as u8)
    } else {
        None
    }
}

/// A colon-hex group: one to four hexadecimal digits.
pub open spec fn spec_hex_group(s: Seq<char>) -> Option<u16> {
    if 1 <= s.len() <= 4 && all_hex_digits(s) {
        Some(hex_val(s) as u16)
    } else {
        None
    }
}

/// The octets of a dot-separated list of octet parts, in text order.
pub open spec fn spec_v4_octets(s: Seq<char>) -> Option<Seq<u8>>
    decreases s.len(),
{
    let i = find_ch(s, '.');
    if i >= s.len() {
        match spec_octet(s) {
            Some(o) => Some(seq![o]),
            None => None,
        }
    } else {
        match spec_octet(s.take(i as int)) {
            Some(o) => match spec_v4_octets(s.skip(i + 1int)) {
                Some(rest) => Some(seq![o] + rest),
                None => None,
            },
            None => None,
        }
    }
}

/// A dotted-quad address: exactly four octet parts, as network-order
/// bytes.
pub open spec fn spec_ipv4(s: Seq<char>) -> Option<Seq<u8>> {
    match spec_v4_octets(s) {
        Some(os) => if os.len() == 4 {
            Some(os)
        } else {
            None
        },
        None => None,
    }
}

/// The groups of a colon-separated list of hex-group parts, in text
/// order; every part must be a hex group.
pub open spec fn spec_groups(s: Seq<char>) -> Option<Seq<u16>>
    decreases s.len(),
{
    let i = find_ch(s, ':');
    if i >= s.len() {
        match spec_hex_group(s) {
            Some(g) => Some(seq![g]),
            None => None,
        }
    } else {
        match spec_hex_group(s.take(i as int)) {
            Some(g) => match spec_groups(s.skip(i + 1int)) {
                Some(rest) => Some(seq![g] + rest),
                None => None,
            },
            None => None,
        }
    }
}

/// Like `spec_groups`, but the last part may instead be an embedded
/// dotted-quad address, which stands for two groups.
pub open spec fn spec_tail_groups(s: Seq<char>) -> Option<Seq<u16>>
    decreases s.len(),
{
    let i = find_ch(s, ':');
    if i >= s.len() {
        match spec_hex_group(s) {
            Some(g) => Some(seq![g]),
            None => match spec_ipv4(s) {
                Some(o) => Some(
                    seq![
                        (o[0] as u16 * 256 + o[1] as u16) as u16,
                        (o[2] as u16 * 256 + o[3] as u16) as u16,
                    ],
                ),
                None => None,
            },
        }
    } else {
        match spec_hex_group(s.take(i as int)) {
            Some(g) => match spec_tail_groups(s.skip(i + 1int)) {
                Some(rest) => Some(seq![g] + rest),
                None => None,
            },
            None => None,
        }
    }
}

/// An empty text stands for no groups at all; otherwise the text must
/// be a nonempty group list.
pub open spec fn spec_groups_opt(s: Seq<char>) -> Option<Seq<u16>> {
    if s.len() == 0 {
        Some(Seq::<u16>::empty())
    } else {
        spec_groups(s)
    }
}

/// As `spec_groups_opt`, allowing an embedded dotted-quad tail.
pub open spec fn spec_tail_groups_opt(s: Seq<char>) -> Option<Seq<u16>> {
    if s.len() == 0 {
        Some(Seq::<u16>::empty())
    } else {
        spec_tail_groups(s)
    }
}

/// `n` zero groups.
pub open spec fn zero_groups(n: nat) -> Seq<u16> {
    Seq::new(n, |i: int| 0u16)
}

/// A colon-hex address as its eight 16-bit groups, most significant
/// first.  Without `::` there must be exactly eight groups; one `::`
/// stands for at least one zero group, so at most seven groups may be
/// written out.
pub open spec fn spec_ipv6_groups(s: Seq<char>) -> Option<Seq<u16>> {
    let i = find_2colon(s);
    if i >= s.len() {
        match spec_tail_groups(s) {
            Some(gs) => if gs.len() == 8 {
                Some(gs)
            } else {
                None
            },
            None => None,
        }
    } else {
        match (spec_groups_opt(s.take(i as int)), spec_tail_groups_opt(s.skip(i + 2int))) {
            (Some(l), Some(r)) => if l.len() + r.len() <= 7 {
                Some(l + zero_groups((8 - l.len() - r.len()) as nat) + r)
            } else {
                None
            },
            _ => None,
        }
    }
}

/// The sixteen network-order bytes of eight 16-bit groups.
pub open spec fn v6_bytes(gs: Seq<u16>) -> Seq<u8> {
    Seq::new(
        16,
        |k: int|
            if k % 2 == 0 {
                (gs[k / 2] >> 8u16) as u8
            } else {
                (gs[k / 2] & 0xff) as u8
            },
    )
}

/// The network-order bytes of an address text: a dotted-quad address
/// gives four bytes; otherwise a colon-hex address gives sixteen.
pub open spec fn spec_addr_bytes(s: Seq<char>) -> Option<Seq<u8>> {
    match spec_ipv4(s) {
        Some(o) => Some(o),
        None => match spec_ipv6_groups(s) {
            Some(gs) => Some(v6_bytes(gs)),
            None => None,
        },
    }
}

/// The mask length part of a block text: one to three decimal digits
/// (leading zeros allowed) of value at most `width`, the family's bit
/// width, which itself fits a byte.
pub open spec fn spec_len_value(s: Seq<char>, width: nat) -> Option<u8> {
    if 1 <= s.len() <= 3 && all_digits(s) && dec_val(s) <= width && width < 256 {
        Some(dec_val(s) as u8)
    } else {
        None
    }
}

proof fn lemma_find_ch_props(s: Seq<char>, c: char)
    ensures
        find_ch(s, c) <= s.len(),
        forall|j: int| 0 <= j < find_ch(s, c) ==> s[j] != c,
        find_ch(s, c) < s.len() ==> s[find_ch(s, c) as int] == c,
    decreases s.len(),
{
    if s.len() > 0 && s[0] != c {
        lemma_find_ch_props(s.drop_first(), c);
        assert forall|j: int| 0 <= j < find_ch(s, c) implies s[j] != c by {
            if j > 0 {
                assert(s[j] == s.drop_first()[j - 1]);
            }
        }
        if find_ch(s, c) < s.len() {
            assert(s[find_ch(s, c) as int] == s.drop_first()[find_ch(s.drop_first(), c) as int]);
        }
    }
}

/// The first index satisfying the first-occurrence description is the
/// one `find_ch` gives.
proof fn lemma_find_ch_is(s: Seq<char>, c: char, k: int)
    requires
        0 <= k <= s.len(),
        forall|j: int| 0 <= j < k ==> s[j] != c,
        k < s.len() ==> s[k] == c,
    ensures
        find_ch(s, c) == k,
{
    lemma_find_ch_props(s, c);
    let f = find_ch(s, c) as int;
    if f < k {
        assert(s[f] == c);
    } else if k < f {
        assert(s[k] != c);
    }
}

proof fn lemma_find_2colon_props(s: Seq<char>)
    ensures
        find_2colon(s) <= s.len(),
        forall|j: int|
            #![trigger s[j]]
            0 <= j < find_2colon(s) && j + 1 < s.len() ==> !(s[j] == ':' && s[j + 1] == ':'),
        find_2colon(s) < s.len() ==> find_2colon(s) + 1 < s.len() && s[find_2colon(s) as int]
            == ':' && s[find_2colon(s) + 1int] == ':',
    decreases s.len(),
{
    if s.len() >= 2 && !(s[0] == ':' && s[1] == ':') {
        lemma_find_2colon_props(s.drop_first());
        assert forall|j: int|
            #![trigger s[j]]
            0 <= j < find_2colon(s) && j + 1 < s.len() implies !(s[j] == ':' && s[j + 1]
            == ':') by {
            if j > 0 {
                assert(s[j] == s.drop_first()[j - 1]);
                assert(s[j + 1] == s.drop_first()[j]);
            }
        }
        if find_2colon(s) < s.len() {
            let fd = find_2colon(s.drop_first()) as int;
            assert(s[find_2colon(s) as int] == s.drop_first()[fd]);
            assert(s[find_2colon(s) + 1int] == s.drop_first()[fd + 1]);
        }
    }
}

proof fn lemma_find_2colon_is(s: Seq<char>, k: int)
    requires
        0 <= k <= s.len(),
        forall|j: int| #![trigger s[j]] 0 <= j < k && j + 1 < s.len() ==> !(s[j] == ':' && s[j + 1] == ':'),
        k < s.len() ==> k + 1 < s.len() && s[k] == ':' && s[k + 1] == ':',
    ensures
        find_2colon(s) == k,
{
    lemma_find_2colon_props(s);
    let f = find_2colon(s) as int;
    if f < k {
        assert(!(s[f] == ':' && s[f + 1] == ':'));
    } else if k < f {
        assert(!(s[k] == ':' && s[k + 1] == ':'));
    }
}

/// Ten to the `n`th power.
pub open spec fn pow10(n: nat) -> nat
    decreases n,
{
    if n == 0 {
        1
    } else {
        10 * pow10((n - 1) as nat)
    }
}

/// Sixteen to the `n`th power.
pub open spec fn pow16(n: nat) -> nat
    decreases n,
{
    if n == 0 {
        1
    } else {
        16 * pow16((n - 1) as nat)
    }
}

proof fn lemma_dec_val_bound(s: Seq<char>)
    requires
        all_digits(s),
    ensures
        dec_val(s) < pow10(s.len()),
    decreases s.len(),
{
    if s.len() > 0 {
        assert(all_digits(s.take(s.len() - 1)));
        lemma_dec_val_bound(s.take(s.len() - 1));
        assert(digit_val(s[s.len() - 1]) <= 9);
    }
}

proof fn lemma_hex_val_bound(s: Seq<char>)
    requires
        all_hex_digits(s),
    ensures
        hex_val(s) < pow16(s.len()),
    decreases s.len(),
{
    if s.len() > 0 {
        assert(all_hex_digits(s.take(s.len() - 1)));
        lemma_hex_val_bound(s.take(s.len() - 1));
        assert(hex_digit_val(s[s.len() - 1]) <= 15);
    }
}

/// The decimal value of the digits in the window `[lo, hi)`, if they
/// are one to three digits of value at most `limit`; leading zeros may
/// be refused.
pub(crate) fn parse_dec_part(v: &Vec<char>, lo: usize, hi: usize, limit: u32, no_leading_zero: bool) -> (r:
    Option<u32>)
    requires
        lo <= hi <= v@.len(),
        limit <= 255,
    ensures
        ({
            let part = v@.subrange(lo as int, hi as int);
            let ok = 1 <= part.len() <= 3 && all_digits(part) && (no_leading_zero && part.len()
                > 1 ==> part[0] != '0') && dec_val(part) <= limit;
            match r {
                Some(x) => ok && x as nat == dec_val(part),
                None => !ok,
            }
        }),
{
    let ghost part = v@.subrange(lo as int, hi as int);
    let len = hi - lo;
    if len < 1 || len > 3 {
        return None;
    }
    if no_leading_zero && len > 1 && v[lo] == '0' {
        proof {
            assert(part[0] == v@[lo as int]);
        }
        return None;
    }
    let mut acc: u32 = 0;
    let mut k: usize = 0;
    while k < len
        invariant
            lo <= hi <= v@.len(),
            len == hi - lo,
            1 <= len <= 3,
            k <= len,
            part == v@.subrange(lo as int, hi as int),
            forall|j: int| 0 <= j < k ==> is_digit(part[j]),
            acc as nat == dec_val(part.take(k as int)),
        decreases len - k,
    {
        let c = v[lo + k];
        let u = c as u32;
        if u < 48 || u > 57 {
            proof {
                assert(part[k as int] == v@[lo + k]);
                assert(!is_digit(part[k as int]));
            }
            return None;
        }
        proof {
            assert(part.take(k as int).len() == k as int);
            assert(all_digits(part.take(k as int)));
            lemma_dec_val_bound(part.take(k as int));
            assert(pow10(0) == 1);
            assert(pow10(1) == 10);
            assert(pow10(2) == 100);
        }
        let d = u - 48;
        acc = acc * 10 + d;
        proof {
            assert(part.take(k + 1).take(k as int) =~= part.take(k as int));
            assert(part.take(k + 1)[k as int] == part[k as int]);
            assert(part[k as int] == v@[lo + k]);
            assert(is_digit(part[k as int]) && digit_val(part[k as int]) == d);
            assert(acc as nat == dec_val(part.take(k + 1)));
        }
        k = k + 1;
    }
    proof {
        assert(part.take(len as int) =~= part);
    }
    if acc > limit {
        return None;
    }
    Some(acc)
}

/// The hexadecimal value of the digits in the window `[lo, hi)`, if
/// they are one to four hexadecimal digits.
pub(crate) fn parse_hex_part(v: &Vec<char>, lo: usize, hi: usize) -> (r: Option<u16>)
    requires
        lo <= hi <= v@.len(),
    ensures
        r == spec_hex_group(v@.subrange(lo as int, hi as int)),
{
    let ghost part = v@.subrange(lo as int, hi as int);
    let len = hi - lo;
    if len < 1 || len > 4 {
        return None;
    }
    let mut acc: u32 = 0;
    let mut k: usize = 0;
    while k < len
        invariant
            lo <= hi <= v@.len(),
            len == hi - lo,
            1 <= len <= 4,
            k <= len,
            part == v@.subrange(lo as int, hi as int),
            forall|j: int| 0 <= j < k ==> is_hex_digit(part[j]),
            acc as nat == hex_val(part.take(k as int)),
        decreases len - k,
    {
        let c = v[lo + k];
        let u = c as u32;
        let d: u32 = if 48 <= u && u <= 57 {
            u - 48
        } else if 97 <= u && u <= 102 {
            u - 87
        } else if 65 <= u && u <= 70 {
            u - 55
        } else {
            proof {
                assert(part[k as int] == v@[lo + k]);
                assert(!is_hex_digit(part[k as int]));
            }
            return None;
        };
        proof {
            assert(part.take(k as int).len() == k as int);
            assert(all_hex_digits(part.take(k as int)));
            lemma_hex_val_bound(part.take(k as int));
            assert(pow16(0) == 1);
            assert(pow16(1) == 16);
            assert(pow16(2) == 256);
            assert(pow16(3) == 4096);
        }
        acc = acc * 16 + d;
        proof {
            assert(part.take(k + 1).take(k as int) =~= part.take(k as int));
            assert(part.take(k + 1)[k as int] == part[k as int]);
            assert(part[k as int] == v@[lo + k]);
            assert(is_hex_digit(part[k as int]) && hex_digit_val(part[k as int]) == d);
            assert(acc as nat == hex_val(part.take(k + 1)));
        }
        k = k + 1;
    }
    proof {
        assert(part.take(len as int) =~= part);
        lemma_hex_val_bound(part);
        assert(pow16(0) == 1);
        assert(pow16(1) == 16);
        assert(pow16(2) == 256);
        assert(pow16(3) == 4096);
        assert(pow16(4) == 65536);
    }
    Some(acc as u16)
}

/// All characters of a string, in order.
pub(crate) fn str_chars(s: &str) -> (r: Vec<char>)
    ensures
        r@ == s@,
{
    let n = s.unicode_len();
    let mut v: Vec<char> = Vec::new();
    proof {
        assert(v@ =~= s@.take(0));
    }
    let mut i: usize = 0;
    while i < n
        invariant
            i <= n,
            n == s@.len(),
            v@ == s@.take(i as int),
        decreases n - i,
    {
        let c = s.get_char(i);
        v.push(c);
        proof {
            assert(v@ =~= s@.take(i + 1));
        }
        i = i + 1;
    }
    proof {
        assert(v@ =~= s@);
    }
    v
}

/// The index of the first occurrence of `c` in the window `[from, to)`,
/// or `to` when `c` does not occur there.
pub(crate) fn find_char_in(v: &Vec<char>, c: char, from: usize, to: usize) -> (r: usize)
    requires
        from <= to <= v@.len(),
    ensures
        from <= r <= to,
        r - from == find_ch(v@.subrange(from as int, to as int), c),
        r < to ==> v@[r as int] == c,
{
    let ghost sub = v@.subrange(from as int, to as int);
    let mut i = from;
    while i < to
        invariant
            from <= i <= to <= v@.len(),
            sub == v@.subrange(from as int, to as int),
            forall|j: int| from <= j < i ==> v@[j] != c,
        decreases to - i,
    {
        if v[i] == c {
            proof {
                assert forall|j: int| 0 <= j < i - from implies sub[j] != c by {
                    assert(sub[j] == v@[from + j]);
                }
                assert(sub[i - from] == v@[i as int]);
                lemma_find_ch_is(sub, c, i - from);
            }
            return i;
        }
        i = i + 1;
    }
    proof {
        assert forall|j: int| 0 <= j < to - from implies sub[j] != c by {
            assert(sub[j] == v@[from + j]);
        }
        lemma_find_ch_is(sub, c, to - from);
    }
    to
}

/// The index of the first `::` in the window `[from, to)`, or `to`
/// when there is none.
pub(crate) fn find_2colon_in(v: &Vec<char>, from: usize, to: usize) -> (r: usize)
    requires
        from <= to <= v@.len(),
    ensures
        from <= r <= to,
        r - from == find_2colon(v@.subrange(from as int, to as int)),
        r < to ==> r + 1 < to && v@[r as int] == ':' && v@[r + 1int] == ':',
{
    let ghost sub = v@.subrange(from as int, to as int);
    if to - from >= 1 {
        let mut i = from;
        while i < to - 1
            invariant
                from <= i <= to <= v@.len(),
                to - from >= 1,
                sub == v@.subrange(from as int, to as int),
                forall|j: int|
                    #![trigger v@[j]]
                    from <= j < i && j + 1 < to ==> !(v@[j] == ':' && v@[j + 1] == ':'),
            decreases to - i,
        {
            if v[i] == ':' && v[i + 1] == ':' {
                proof {
                    assert forall|j: int|
                        #![trigger sub[j]]
                        0 <= j < i - from && j + 1 < sub.len() implies !(sub[j] == ':' && sub[j
                        + 1] == ':') by {
                        assert(sub[j] == v@[from + j] && sub[j + 1] == v@[from + j + 1]);
                    }
                    assert(sub[i - from] == v@[i as int] && sub[i - from + 1] == v@[i + 1int]);
                    lemma_find_2colon_is(sub, i - from);
                }
                return i;
            }
            i = i + 1;
        }
    }
    proof {
        assert forall|j: int|
            #![trigger sub[j]]
            0 <= j < sub.len() && j + 1 < sub.len() implies !(sub[j] == ':' && sub[j + 1]
            == ':') by {
            assert(sub[j] == v@[from + j] && sub[j + 1] == v@[from + j + 1]);
        }
        lemma_find_2colon_is(sub, to - from);
    }
    to
}

/// The octet parts of the window `[from, to)`, in order.
pub(crate) fn parse_v4_octets(v: &Vec<char>, from: usize, to: usize) -> (r: Option<Vec<u8>>)
    requires
        from <= to <= v@.len(),
    ensures
        ({
            let so = spec_v4_octets(v@.subrange(from as int, to as int));
            match r {
                Some(o) => so is Some && o@ == so->0,
                None => so is None,
            }
        }),
    decreases to - from,
{
    let ghost sub = v@.subrange(from as int, to as int);
    let j = find_char_in(v, '.', from, to);
    proof {
        assert(sub.take(j - from) =~= v@.subrange(from as int, j as int));
    }
    let oct = parse_dec_part(v, from, j, 255, true);
    match oct {
        None => {
            proof {
                if j == to {
                    assert(sub.take(j - from) =~= sub);
                }
            }
            None
        },
        Some(x) => {
            let ob = x as u8;
            if j == to {
                let mut out: Vec<u8> = Vec::new();
                out.push(ob);
                proof {
                    assert(sub.take(j - from) =~= sub);
                    assert(out@ =~= seq![ob]);
                }
                Some(out)
            } else {
                proof {
                    assert(sub.skip(j - from + 1) =~= v@.subrange(j + 1int, to as int));
                }
                match parse_v4_octets(v, j + 1, to) {
                    None => None,
                    Some(rest) => {
                        let mut out: Vec<u8> = Vec::new();
                        out.push(ob);
                        let mut tail = rest;
                        out.append(&mut tail);
                        proof {
                            assert(out@ =~= seq![ob] + spec_v4_octets(
                                sub.skip(j - from + 1),
                            )->0);
                        }
                        Some(out)
                    },
                }
            }
        },
    }
}

/// A dotted-quad address in the window `[from, to)`, as its four
/// network-order octets.
pub(crate) fn parse_ipv4_in(v: &Vec<char>, from: usize, to: usize) -> (r: Option<[u8; 4]>)
    requires
        from <= to <= v@.len(),
    ensures
        ({
            let so = spec_ipv4(v@.subrange(from as int, to as int));
            match r {
                Some(a) => so is Some && a@ == so->0,
                None => so is None,
            }
        }),
{
    match parse_v4_octets(v, from, to) {
        Some(o) => {
            if o.len() == 4 {
                let mut a: [u8; 4] = [0; 4];
                a[0] = o[0];
                a[1] = o[1];
                a[2] = o[2];
                a[3] = o[3];
                proof {
                    assert(a@ =~= o@);
                }
                Some(a)
            } else {
                None
            }
        },
        None => None,
    }
}

/// The hex groups of the window `[from, to)` as a strict
/// colon-separated list.
pub(crate) fn parse_groups_in(v: &Vec<char>, from: usize, to: usize) -> (r: Option<Vec<u16>>)
    requires
        from <= to <= v@.len(),
    ensures
        ({
            let so = spec_groups(v@.subrange(from as int, to as int));
            match r {
                Some(o) => so is Some && o@ == so->0,
                None => so is None,
            }
        }),
    decreases to - from,
{
    let ghost sub = v@.subrange(from as int, to as int);
    let j = find_char_in(v, ':', from, to);
    proof {
        assert(sub.take(j - from) =~= v@.subrange(from as int, j as int));
    }
    let g = parse_hex_part(v, from, j);
    match g {
        None => {
            proof {
                if j == to {
                    assert(sub.take(j - from) =~= sub);
                }
            }
            None
        },
        Some(gv) => {
            if j == to {
                let mut out: Vec<u16> = Vec::new();
                out.push(gv);
                proof {
                    assert(sub.take(j - from) =~= sub);
                    assert(out@ =~= seq![gv]);
                }
                Some(out)
            } else {
                proof {
                    assert(sub.skip(j - from + 1) =~= v@.subrange(j + 1int, to as int));
                }
                match parse_groups_in(v, j + 1, to) {
                    None => None,
                    Some(rest) => {
                        let mut out: Vec<u16> = Vec::new();
                        out.push(gv);
                        let mut tail = rest;
                        out.append(&mut tail);
                        proof {
                            assert(out@ =~= seq![gv] + spec_groups(sub.skip(j - from + 1))->0);
                        }
                        Some(out)
                    },
                }
            }
        },
    }
}

/// The hex groups of the window `[from, to)`, where the last part may
/// be an embedded dotted-quad standing for two groups.
pub(crate) fn parse_tail_groups_in(v: &Vec<char>, from: usize, to: usize) -> (r: Option<Vec<u16>>)
    requires
        from <= to <= v@.len(),
    ensures
        ({
            let so = spec_tail_groups(v@.subrange(from as int, to as int));
            match r {
                Some(o) => so is Some && o@ == so->0,
                None => so is None,
            }
        }),
    decreases to - from,
{
    let ghost sub = v@.subrange(from as int, to as int);
    let j = find_char_in(v, ':', from, to);
    proof {
        assert(sub.take(j - from) =~= v@.subrange(from as int, j as int));
    }
    if j == to {
        proof {
            assert(sub.take(j - from) =~= sub);
        }
        match parse_hex_part(v, from, to) {
            Some(gv) => {
                let mut out: Vec<u16> = Vec::new();
                out.push(gv);
                proof {
                    assert(out@ =~= seq![gv]);
                }
                Some(out)
            },
            None => {
                match parse_ipv4_in(v, from, to) {
                    Some(a) => {
                        let g0: u16 = (a[0] as u16) * 256 + (a[1] as u16);
                        let g1: u16 = (a[2] as u16) * 256 + (a[3] as u16);
                        let mut out: Vec<u16> = Vec::new();
                        out.push(g0);
                        out.push(g1);
                        proof {
                            let o = spec_ipv4(sub)->0;
                            assert(a@[0] == o[0] && a@[1] == o[1] && a@[2] == o[2] && a@[3]
                                == o[3]);
                            assert(out@ =~= seq![
                                (o[0] as u16 * 256 + o[1] as u16) as u16,
                                (o[2] as u16 * 256 + o[3] as u16) as u16,
                            ]);
                        }
                        Some(out)
                    },
                    None => None,
                }
            },
        }
    } else {
        match parse_hex_part(v, from, j) {
            None => None,
            Some(gv) => {
                proof {
                    assert(sub.skip(j - from + 1) =~= v@.subrange(j + 1int, to as int));
                }
                match parse_tail_groups_in(v, j + 1, to) {
                    None => None,
                    Some(rest) => {
                        let mut out: Vec<u16> = Vec::new();
                        out.push(gv);
                        let mut tail = rest;
                        out.append(&mut tail);
                        proof {
                            assert(out@ =~= seq![gv] + spec_tail_groups(
                                sub.skip(j - from + 1),
                            )->0);
                        }
                        Some(out)
                    },
                }
            },
        }
    }
}

/// A colon-hex address in the window `[from, to)`, as its sixteen
/// network-order bytes.
pub(crate) fn parse_ipv6_in(v: &Vec<char>, from: usize, to: usize) -> (r: Option<[u8; 16]>)
    requires
        from <= to <= v@.len(),
    ensures
        ({
            let sg = spec_ipv6_groups(v@.subrange(from as int, to as int));
            match r {
                Some(a) => sg is Some && a@ == v6_bytes(sg->0),
                None => sg is None,
            }
        }),
{
    let ghost sub = v@.subrange(from as int, to as int);
    let i2 = find_2colon_in(v, from, to);
    let groups: Option<Vec<u16>> = if i2 == to {
        match parse_tail_groups_in(v, from, to) {
            Some(gs) => {
                if gs.len() == 8 {
                    Some(gs)
                } else {
                    None
                }
            },
            None => None,
        }
    } else {
        proof {
            assert(sub.take(i2 - from) =~= v@.subrange(from as int, i2 as int));
            assert(sub.skip(i2 - from + 2) =~= v@.subrange(i2 + 2int, to as int));
        }
        let lopt: Option<Vec<u16>> = if i2 == from {
            Some(Vec::new())
        } else {
            parse_groups_in(v, from, i2)
        };
        match lopt {
            None => None,
            Some(l) => {
                let ropt: Option<Vec<u16>> = if i2 + 2 == to {
                    Some(Vec::new())
                } else {
                    parse_tail_groups_in(v, i2 + 2, to)
                };
                match ropt {
                    None => None,
                    Some(rg) => {
                        if l.len() <= 7 && rg.len() <= 7 - l.len() {
                            let ghost lseq = l@;
                            let ghost rseq = rg@;
                            let mut gs = l;
                            let fill = 8 - gs.len() - rg.len();
                            let mut z: usize = 0;
                            while z < fill
                                invariant
                                    z <= fill,
                                    gs@ == lseq + zero_groups(z as nat),
                                decreases fill - z,
                            {
                                gs.push(0);
                                proof {
                                    assert(gs@ =~= lseq + zero_groups((z + 1) as nat));
                                }
                                z = z + 1;
                            }
                            let mut tail = rg;
                            gs.append(&mut tail);
                            proof {
                                assert(gs@ =~= lseq + zero_groups(
                                    (8 - lseq.len() - rseq.len()) as nat,
                                ) + rseq);
                            }
                            Some(gs)
                        } else {
                            None
                        }
                    },
                }
            },
        }
    };
    match groups {
        None => None,
        Some(gs) => {
            proof {
                assert(spec_ipv6_groups(sub) matches Some(g) && g == gs@);
            }
            let mut b: [u8; 16] = [0; 16];
            let mut k: usize = 0;
            while k < 8
                invariant
                    k <= 8,
                    gs@.len() == 8,
                    forall|x: int|
                        #![trigger b@[x]]
                        0 <= x < 2 * k ==> b@[x] == v6_bytes(gs@)[x],
                decreases 8 - k,
            {
                let g = gs[k];
                proof {
                    assert((g >> 8u16) < 256 && (g & 0xff) < 256) by (bit_vector);
                }
                b[2 * k] = (g >> 8u16) as u8;
                b[2 * k + 1] = (g & 0xff) as u8;
                proof {
                    assert((2 * k as int) / 2 == k as int && (2 * k as int + 1) / 2
                        == k as int);
                    assert(b@[2 * k as int] == v6_bytes(gs@)[2 * k as int]);
                    assert(b@[2 * k as int + 1] == v6_bytes(gs@)[2 * k as int + 1]);
                }
                k = k + 1;
            }
            proof {
                assert(b@ =~= v6_bytes(gs@));
            }
            Some(b)
        },
    }
}

} // verus!

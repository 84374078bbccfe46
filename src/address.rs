//! The text payload `"<FAMILY> <ADDR>"` exchanged with an echo remote.
use vstd::prelude::*;
use vstd::string::*;

verus! {

/// An IP address tagged with its family: four octets, or eight 16-bit groups.
#[derive(Debug, Clone, Copy, PartialEq, Eq)]
pub enum Address {
    V4(u8, u8, u8, u8),
    V6([u16; 8]),
}

/// The family of an address.
#[derive(Debug, Clone, Copy, PartialEq, Eq, Structural)]
pub enum Family {
    V4,
    V6,
}

impl Address {
    pub open spec fn family_of(self) -> Family {
        match self {
            Address::V4(..) => Family::V4,
            Address::V6(..) => Family::V6,
        }
    }

    pub fn family(&self) -> (r: Family)
        ensures
            r == self.family_of(),
    {
        match self {
            Address::V4(..) => Family::V4,
            Address::V6(..) => Family::V6,
        }
    }
}

/// The digit of value `d` in base 16 (lower case), which is also its digit in base 10.
pub open spec fn digit_char(d: nat) -> char {
    if d == 0 { '0' } else if d == 1 { '1' } else if d == 2 { '2' } else if d == 3 { '3' }
    else if d == 4 { '4' } else if d == 5 { '5' } else if d == 6 { '6' } else if d == 7 { '7' }
    else if d == 8 { '8' } else if d == 9 { '9' } else if d == 10 { 'a' } else if d == 11 { 'b' }
    else if d == 12 { 'c' } else if d == 13 { 'd' } else if d == 14 { 'e' } else { 'f' }
}

/// Decimal text of `n`, without leading zeros.
pub open spec fn dec_text(n: nat) -> Seq<char>
    decreases n,
{
    if n < 10 {
        seq![digit_char(n)]
    } else {
        dec_text(n / 10).push(digit_char(n % 10))
    }
}

/// Lower-case hexadecimal text of `n`, without leading zeros.
pub open spec fn hex_text(n: nat) -> Seq<char>
    decreases n,
{
    if n < 16 {
        seq![digit_char(n)]
    } else {
        hex_text(n / 16).push(digit_char(n % 16))
    }
}

/// Dotted-quad text of an IPv4 address.
pub open spec fn v4_text(a: u8, b: u8, c: u8, d: u8) -> Seq<char> {
    dec_text(a as nat) + seq!['.'] + dec_text(b as nat) + seq!['.'] + dec_text(c as nat)
        + seq!['.'] + dec_text(d as nat)
}

/// Groups in hexadecimal, separated by colons.
pub open spec fn groups_text(s: Seq<u16>) -> Seq<char>
    decreases s.len(),
{
    if s.len() == 0 {
        seq![]
    } else if s.len() == 1 {
        hex_text(s[0] as nat)
    } else {
        groups_text(s.drop_last()) + seq![':'] + hex_text(s.last() as nat)
    }
}

/// Number of zero groups in a row from index `i`.
pub open spec fn zero_run(s: Seq<u16>, i: int) -> nat
    decreases s.len() - i,
{
    if 0 <= i < s.len() && s[i] == 0 {
        1 + zero_run(s, i + 1)
    } else {
        0
    }
}

/// Start and length of the leftmost longest run of zero groups that starts at `i` or later.
pub open spec fn longest_zero_run(s: Seq<u16>, i: int) -> (int, nat)
    decreases s.len() - i,
{
    if i < 0 || i >= s.len() {
        (s.len() as int, 0)
    } else {
        let rest = longest_zero_run(s, i + 1);
        if zero_run(s, i) >= rest.1 && zero_run(s, i) > 0 {
            (i, zero_run(s, i))
        } else {
            rest
        }
    }
}

/// An IPv6 address that embeds an IPv4 one as `::ffff:a.b.c.d`.
pub open spec fn is_v4_mapped(s: Seq<u16>) -> bool {
    s.len() == 8 && s[0] == 0 && s[1] == 0 && s[2] == 0 && s[3] == 0 && s[4] == 0 && s[5]
        == 0xffff
}

/// Canonical text of an IPv6 address: lower-case groups without leading zeros, the
/// leftmost longest run of two or more zero groups written `::`, and an IPv4-mapped
/// address written `::ffff:` followed by its dotted quad.
pub open spec fn v6_text(s: Seq<u16>) -> Seq<char> {
    if is_v4_mapped(s) {
        seq![':', ':', 'f', 'f', 'f', 'f', ':'] + v4_text(
            (s[6] / 256) as u8,
            (s[6] % 256) as u8,
            (s[7] / 256) as u8,
            (s[7] % 256) as u8,
        )
    } else {
        let run = longest_zero_run(s, 0);
        if run.1 > 1 {
            groups_text(s.subrange(0, run.0)) + seq![':', ':'] + groups_text(
                s.subrange(run.0 + run.1, s.len() as int),
            )
        } else {
            groups_text(s)
        }
    }
}

pub open spec fn v4_token() -> Seq<char> {
    seq!['I', 'P', 'v', '4']
}

pub open spec fn v6_token() -> Seq<char> {
    seq!['I', 'P', 'v', '6']
}

/// Canonical text of an address.
pub open spec fn addr_text(a: Address) -> Seq<char> {
    match a {
        Address::V4(p, q, r, t) => v4_text(p, q, r, t),
        Address::V6(s) => v6_text(s@),
    }
}

/// The payload for an address: its family token, one space, its canonical text.
pub open spec fn body_text(a: Address) -> Seq<char> {
    match a {
        Address::V4(..) => v4_token() + seq![' '] + addr_text(a),
        Address::V6(..) => v6_token() + seq![' '] + addr_text(a),
    }
}

fn digit_of(d: u16) -> (c: char)
    requires
        d < 16,
    ensures
        c == digit_char(d as nat),
{
    if d == 0 { '0' } else if d == 1 { '1' } else if d == 2 { '2' } else if d == 3 { '3' }
    else if d == 4 { '4' } else if d == 5 { '5' } else if d == 6 { '6' } else if d == 7 { '7' }
    else if d == 8 { '8' } else if d == 9 { '9' } else if d == 10 { 'a' } else if d == 11 { 'b' }
    else if d == 12 { 'c' } else if d == 13 { 'd' } else if d == 14 { 'e' } else { 'f' }
}

fn push_dec(out: &mut Vec<char>, n: u16)
    ensures
        final(out)@ == old(out)@ + dec_text(n as nat),
    decreases n,
{
    if n < 10 {
        out.push(digit_of(n));
    } else {
        push_dec(out, n / 10);
        out.push(digit_of(n % 10));
    }
    assert(final(out)@ =~= old(out)@ + dec_text(n as nat));
}

fn push_hex(out: &mut Vec<char>, n: u16)
    ensures
        final(out)@ == old(out)@ + hex_text(n as nat),
    decreases n,
{
    if n < 16 {
        out.push(digit_of(n));
    } else {
        push_hex(out, n / 16);
        out.push(digit_of(n % 16));
    }
    assert(final(out)@ =~= old(out)@ + hex_text(n as nat));
}

fn push_v4(out: &mut Vec<char>, a: u8, b: u8, c: u8, d: u8)
    ensures
        final(out)@ == old(out)@ + v4_text(a, b, c, d),
{
    push_dec(out, a as u16);
    out.push('.');
    push_dec(out, b as u16);
    out.push('.');
    push_dec(out, c as u16);
    out.push('.');
    push_dec(out, d as u16);
    assert(final(out)@ =~= old(out)@ + v4_text(a, b, c, d));
}

fn push_groups(out: &mut Vec<char>, s: &[u16; 8], from: usize, to: usize)
    requires
        from <= to <= 8,
    ensures
        final(out)@ == old(out)@ + groups_text(s@.subrange(from as int, to as int)),
{
    let mut j: usize = from;
    while j < to
        invariant
            from <= j <= to <= 8,
            s@.len() == 8,
            out@ == old(out)@ + groups_text(s@.subrange(from as int, j as int)),
        decreases to - j,
    {
        let ghost before = out@;
        if j > from {
            out.push(':');
        }
        push_hex(out, s[j]);
        proof {
            let next = s@.subrange(from as int, j + 1);
            assert(next.drop_last() =~= s@.subrange(from as int, j as int));
            if j == from {
                assert(next =~= seq![s@[j as int]]);
            }
        }
        j = j + 1;
        assert(out@ =~= old(out)@ + groups_text(s@.subrange(from as int, j as int)));
    }
}

fn longest_run(s: &[u16; 8]) -> (r: (usize, usize))
    ensures
        r.0 as int == longest_zero_run(s@, 0).0,
        r.1 as nat == longest_zero_run(s@, 0).1,
        r.0 + r.1 <= 8,
{
    let mut i: usize = 8;
    let mut cur: usize = 0;
    let mut best: (usize, usize) = (8, 0);
    while i > 0
        invariant
            i <= 8,
            s@.len() == 8,
            cur as nat == zero_run(s@, i as int),
            best.0 as int == longest_zero_run(s@, i as int).0,
            best.1 as nat == longest_zero_run(s@, i as int).1,
            cur + i <= 8,
            best.0 + best.1 <= 8,
        decreases i,
    {
        i = i - 1;
        if s[i] == 0 {
            cur = cur + 1;
        } else {
            cur = 0;
        }
        if cur >= best.1 && cur > 0 {
            best = (i, cur);
        }
    }
    best
}

fn push_v6(out: &mut Vec<char>, s: &[u16; 8])
    ensures
        final(out)@ == old(out)@ + v6_text(s@),
{
    if s[0] == 0 && s[1] == 0 && s[2] == 0 && s[3] == 0 && s[4] == 0 && s[5] == 0xffff {
        out.push(':');
        out.push(':');
        out.push('f');
        out.push('f');
        out.push('f');
        out.push('f');
        out.push(':');
        push_v4(
            out,
            (s[6] / 256) as u8,
            (s[6] % 256) as u8,
            (s[7] / 256) as u8,
            (s[7] % 256) as u8,
        );
    } else {
        let (start, len) = longest_run(s);
        if len > 1 {
            push_groups(out, s, 0, start);
            out.push(':');
            out.push(':');
            push_groups(out, s, start + len, 8);
        } else {
            push_groups(out, s, 0, 8);
            assert(s@.subrange(0, 8) =~= s@);
        }
    }
    assert(final(out)@ =~= old(out)@ + v6_text(s@));
}


/// Why a payload did not decode.
#[derive(Debug, PartialEq, Eq)]
pub enum CodecError {
    /// The payload holds no space between family and address.
    MissingSpace,
    /// The family token is neither `IPv4` nor `IPv6`; it is kept here.
    UnsupportedFamily { family: String },
    /// The address is not the canonical text of an address of the named family.
    InvalidAddress { expected: Family },
}

/// Index of the first space at `i` or later, or the length if there is none.
pub open spec fn space_index(t: Seq<char>, i: int) -> int
    decreases t.len() - i,
{
    if i < 0 || i >= t.len() {
        t.len() as int
    } else if t[i] == ' ' {
        i
    } else {
        space_index(t, i + 1)
    }
}

/// The text before the first space.
pub open spec fn family_token(t: Seq<char>) -> Seq<char> {
    t.subrange(0, space_index(t, 0))
}

/// The text after the first space.
pub open spec fn addr_part(t: Seq<char>) -> Seq<char> {
    t.subrange(space_index(t, 0) + 1, t.len() as int)
}

pub open spec fn token_family(tok: Seq<char>) -> Option<Family> {
    if tok == v4_token() {
        Some(Family::V4)
    } else if tok == v6_token() {
        Some(Family::V6)
    } else {
        None
    }
}

/// Relies on `String::from_iter` over chars: the string holds exactly those chars.
#[verifier::external_body]
pub(crate) fn string_of(v: &Vec<char>) -> (r: String)
    ensures
        r@ == v@,
{
    String::from_iter(v.iter())
}

pub(crate) fn chars_of(s: &str) -> (r: Vec<char>)
    ensures
        r@ == s@,
{
    let n = s.unicode_len();
    let mut r: Vec<char> = Vec::new();
    let mut i: usize = 0;
    while i < n
        invariant
            i <= n,
            n == s@.len(),
            r@ == s@.subrange(0, i as int),
        decreases n - i,
    {
        r.push(s.get_char(i));
        i = i + 1;
        assert(r@ =~= s@.subrange(0, i as int));
    }
    assert(r@ =~= s@);
    r
}

/// Whether `a` equals `t` from index `start` on.
fn same_tail(a: &Vec<char>, t: &Vec<char>, start: usize) -> (r: bool)
    requires
        start <= t@.len(),
    ensures
        r == (a@ == t@.subrange(start as int, t@.len() as int)),
{
    if a.len() != t.len() - start {
        assert(a@.len() != t@.subrange(start as int, t@.len() as int).len());
        return false;
    }
    let mut i: usize = 0;
    while i < a.len()
        invariant
            i <= a@.len(),
            a@.len() + start == t@.len(),
            start <= t@.len() <= usize::MAX,
            forall|j: int| 0 <= j < i ==> a@[j] == t@[start + j],
        decreases a@.len() - i,
    {
        if a[i] != t[start + i] {
            return false;
        }
        i = i + 1;
    }
    assert(a@ =~= t@.subrange(start as int, t@.len() as int));
    true
}


/// The value of a decimal digit, if `c` is one.
pub open spec fn digit_val(c: char) -> Option<nat> {
    if c == '0' { Some(0) } else if c == '1' { Some(1) } else if c == '2' { Some(2) }
    else if c == '3' { Some(3) } else if c == '4' { Some(4) } else if c == '5' { Some(5) }
    else if c == '6' { Some(6) } else if c == '7' { Some(7) } else if c == '8' { Some(8) }
    else if c == '9' { Some(9) } else { None }
}

/// The value of a run of decimal digits.
pub open spec fn dec_value(s: Seq<char>) -> nat
    decreases s.len(),
{
    if s.len() == 0 {
        0
    } else {
        dec_value(s.drop_last()) * 10 + match digit_val(s.last()) {
            Some(d) => d,
            None => 0,
        }
    }
}

fn digit_of_char(c: char) -> (r: Option<u16>)
    ensures
        r matches Some(v) ==> digit_val(c) == Some(v as nat) && v < 10,
        r is None ==> digit_val(c) is None,
{
    if c == '0' { Some(0) } else if c == '1' { Some(1) } else if c == '2' { Some(2) }
    else if c == '3' { Some(3) } else if c == '4' { Some(4) } else if c == '5' { Some(5) }
    else if c == '6' { Some(6) } else if c == '7' { Some(7) } else if c == '8' { Some(8) }
    else if c == '9' { Some(9) } else { None }
}

proof fn lemma_digit(d: nat)
    requires
        d < 10,
    ensures
        digit_val(digit_char(d)) == Some(d),
{
}

proof fn lemma_dec_text(n: nat)
    ensures
        forall|k: int| 0 <= k < dec_text(n).len() ==> #[trigger] digit_val(dec_text(n)[k]) is Some,
        dec_value(dec_text(n)) == n,
        n < 10 ==> dec_text(n).len() == 1,
        10 <= n < 100 ==> dec_text(n).len() == 2,
        100 <= n < 1000 ==> dec_text(n).len() == 3,
        dec_text(n).len() >= 1,
    decreases n,
{
    if n >= 10 {
        lemma_dec_text(n / 10);
        lemma_digit(n % 10);
        let s = dec_text(n);
        assert(s.last() == digit_char(n % 10));
        assert(dec_value(s) == dec_value(s.drop_last()) * 10 + n % 10);
        assert(n == (n / 10) * 10 + n % 10);
        assert(s.drop_last() == dec_text(n / 10));
        assert forall|k: int| 0 <= k < s.len() implies #[trigger] digit_val(s[k]) is Some by {
            if k < s.len() - 1 {
                assert(s[k] == dec_text(n / 10)[k]);
            }
        }
    } else {
        assert(dec_text(n) =~= seq![digit_char(n)]);
        assert(dec_text(n).drop_last() =~= Seq::<char>::empty());
        lemma_digit(n);
        assert(dec_text(n).last() == digit_char(n));
        assert(dec_value(dec_text(n)) == dec_value(dec_text(n).drop_last()) * 10 + n);
    }
}

/// Reads one to three decimal digits from `i` as an octet.
fn read_dec(t: &Vec<char>, i: usize) -> (r: Option<(u8, usize)>)
    requires
        i <= t@.len(),
    ensures
        r matches Some(p) ==> i < p.1 <= t@.len(),
        forall|n: nat|
            n <= 255 && i + dec_text(n).len() <= t@.len() && t@.subrange(
                i as int,
                i + dec_text(n).len(),
            ) == #[trigger] dec_text(n) && (i + dec_text(n).len() == t@.len() || digit_val(
                t@[i + dec_text(n).len()],
            ) is None) ==> r == Some::<(u8, usize)>((n as u8, (i + dec_text(n).len()) as usize)),
{
    let mut v: u16 = 0;
    let mut j: usize = i;
    let mut more = true;
    while more && j < t.len() && j - i < 3
        invariant
            i <= j <= t@.len(),
            j - i <= 3,
            v == dec_value(t@.subrange(i as int, j as int)),
            v < if j - i == 0 { 1int } else if j - i == 1 { 10int } else if j - i == 2 { 100int } else { 1000int },
            forall|k: int| i <= k < j ==> #[trigger] digit_val(t@[k]) is Some,
            !more ==> j < t@.len() && digit_val(t@[j as int]) is None,
        decreases t@.len() - j + (if more { 1int } else { 0int }),
    {
        match digit_of_char(t[j]) {
            Some(d) => {
                proof {
                    let sub = t@.subrange(i as int, j + 1);
                    assert(sub.drop_last() =~= t@.subrange(i as int, j as int));
                }
                v = v * 10 + d;
                j = j + 1;
            },
            None => {
                more = false;
            },
        }
    }
    proof {
        assert forall|n: nat|
            n <= 255 && i + dec_text(n).len() <= t@.len() && t@.subrange(
                i as int,
                i + dec_text(n).len(),
            ) == #[trigger] dec_text(n) && (i + dec_text(n).len() == t@.len() || digit_val(
                t@[i + dec_text(n).len()],
            ) is None) implies j == i + dec_text(n).len() && v == n by {
            lemma_dec_text(n);
            let len = dec_text(n).len();
            if j < i + len {
                assert(dec_text(n)[j - i] == t@[j as int]);
            }
            if j > i + len {
                assert(digit_val(t@[i + len]) is Some);
            }
            assert(t@.subrange(i as int, j as int) == dec_text(n));
        }
    }
    if j == i || v > 255 {
        None
    } else {
        Some((v as u8, j))
    }
}

fn hex_value(c: char) -> (r: Option<u16>)
    ensures
        r matches Some(v) ==> v < 16,
{
    if '0' <= c && c <= '9' {
        Some((c as u32 - '0' as u32) as u16)
    } else if 'a' <= c && c <= 'f' {
        Some((c as u32 - 'a' as u32 + 10) as u16)
    } else if 'A' <= c && c <= 'F' {
        Some((c as u32 - 'A' as u32 + 10) as u16)
    } else {
        None
    }
}

/// Reads one to four hexadecimal digits from `i`, stopping before `end`.
fn read_number(t: &Vec<char>, i: usize, end: usize) -> (r: Option<(u16, usize)>)
    requires
        i <= end <= t@.len(),
    ensures
        r matches Some(p) ==> i < p.1 <= end,
{
    let mut v: u16 = 0;
    let mut j: usize = i;
    while j < end && j - i < 4
        invariant
            i <= j <= end <= t@.len(),
            j - i <= 4,
            j - i == 0 ==> v == 0,
            j - i == 1 ==> v < 16,
            j - i == 2 ==> v < 256,
            j - i == 3 ==> v < 4096,
        decreases end - j,
    {
        let d = hex_value(t[j]);
        match d {
            Some(x) => {
                v = v * 16 + x;
            },
            None => {
                break ;
            },
        }
        j = j + 1;
    }
    if j == i {
        None
    } else {
        Some((v, j))
    }
}

/// Where the pieces of `v4_text(p, q, u, w)` stand when it fills `t` from `i` on.
pub open spec fn quad_layout(t: Seq<char>, i: int, p: u8, q: u8, u: u8, w: u8) -> bool {
    let i1 = i + dec_text(p as nat).len();
    let i2 = i1 + 1 + dec_text(q as nat).len();
    let i3 = i2 + 1 + dec_text(u as nat).len();
    let i4 = i3 + 1 + dec_text(w as nat).len();
    &&& i4 == t.len()
    &&& t.subrange(i, i1) == dec_text(p as nat) && t[i1] == '.'
    &&& t.subrange(i1 + 1, i2) == dec_text(q as nat) && t[i2] == '.'
    &&& t.subrange(i2 + 1, i3) == dec_text(u as nat) && t[i3] == '.'
    &&& t.subrange(i3 + 1, i4) == dec_text(w as nat)
}

proof fn lemma_quad_layout(t: Seq<char>, i: int, p: u8, q: u8, u: u8, w: u8)
    requires
        0 <= i <= t.len(),
        t.subrange(i, t.len() as int) == v4_text(p, q, u, w),
    ensures
        quad_layout(t, i, p, q, u, w),
{
    let s = t.subrange(i, t.len() as int);
    let a = dec_text(p as nat);
    let b = dec_text(q as nat);
    let c = dec_text(u as nat);
    let d = dec_text(w as nat);
    let x1 = a + seq!['.'];
    let x2 = x1 + b;
    let y2 = x2 + seq!['.'];
    let x3 = y2 + c;
    let y3 = x3 + seq!['.'];
    assert(s =~= y3 + d);
    let i1 = i + a.len();
    let i2 = i1 + 1 + b.len();
    let i3 = i2 + 1 + c.len();
    assert(x2.len() == i2 - i);
    assert(x3.len() == i3 - i);
    assert(t.len() == i3 + 1 + d.len());
    assert forall|k: int| 0 <= k < a.len() implies t.subrange(i, i1)[k] == a[k] by {
        assert(t[i + k] == s[k]);
        assert(s[k] == y3[k] && y3[k] == x3[k] && x3[k] == y2[k] && y2[k] == x2[k] && x2[k] == x1[k]);
    }
    assert(t.subrange(i, i1) =~= a);
    assert(t[i1] == '.') by {
        assert(t[i1] == s[i1 - i]);
        assert(s[i1 - i] == y3[i1 - i] && y3[i1 - i] == x3[i1 - i] && x3[i1 - i] == y2[i1 - i]);
        assert(y2[i1 - i] == x2[i1 - i] && x2[i1 - i] == x1[i1 - i]);
    }
    assert forall|k: int| 0 <= k < b.len() implies t.subrange(i1 + 1, i2)[k] == b[k] by {
        let j = i1 + 1 + k - i;
        assert(t[i1 + 1 + k] == s[j]);
        assert(s[j] == y3[j] && y3[j] == x3[j] && x3[j] == y2[j] && y2[j] == x2[j]);
    }
    assert(t.subrange(i1 + 1, i2) =~= b);
    assert(t[i2] == '.') by {
        let j = i2 - i;
        assert(t[i2] == s[j]);
        assert(s[j] == y3[j] && y3[j] == x3[j] && x3[j] == y2[j]);
    }
    assert forall|k: int| 0 <= k < c.len() implies t.subrange(i2 + 1, i3)[k] == c[k] by {
        let j = i2 + 1 + k - i;
        assert(t[i2 + 1 + k] == s[j]);
        assert(s[j] == y3[j] && y3[j] == x3[j]);
    }
    assert(t.subrange(i2 + 1, i3) =~= c);
    assert(t[i3] == '.') by {
        let j = i3 - i;
        assert(t[i3] == s[j]);
        assert(s[j] == y3[j]);
    }
    assert forall|k: int| 0 <= k < d.len() implies t.subrange(i3 + 1, t.len() as int)[k] == d[k] by {
        let j = i3 + 1 + k - i;
        assert(t[i3 + 1 + k] == s[j]);
    }
    assert(t.subrange(i3 + 1, t.len() as int) =~= d);
}

/// Reads an octet at `i` followed by a dot, or by the end when `last`.
fn read_octet(t: &Vec<char>, i: usize, last: bool) -> (r: Option<(u8, usize)>)
    requires
        i <= t@.len(),
    ensures
        r matches Some(p) ==> i < p.1 <= t@.len(),
        forall|n: u8|
            i + dec_text(n as nat).len() <= t@.len() && t@.subrange(
                i as int,
                i + dec_text(n as nat).len(),
            ) == #[trigger] dec_text(n as nat) && (if last {
                i + dec_text(n as nat).len() == t@.len()
            } else {
                i + dec_text(n as nat).len() < t@.len() && t@[i + dec_text(n as nat).len()] == '.'
            }) ==> r == Some::<(u8, usize)>(
                (n, (i + dec_text(n as nat).len() + if last { 0int } else { 1int }) as usize),
            ),
{
    let (v, j) = match read_dec(t, i) {
        Some(x) => x,
        None => return None,
    };
    if last {
        if j == t.len() {
            Some((v, j))
        } else {
            None
        }
    } else if j < t.len() && t[j] == '.' {
        Some((v, j + 1))
    } else {
        None
    }
}

/// Where reading goes on after an octet: past it, or to the end when it failed.
fn next_pos(t: &Vec<char>, r: &Option<(u8, usize)>) -> (p: usize)
    ensures
        r matches Some(x) ==> p == x.1,
        r is None ==> p == t@.len(),
{
    match r {
        Some(x) => x.1,
        None => t.len(),
    }
}

/// Reads `a.b.c.d` filling `t` from `i` on.
fn read_quad(t: &Vec<char>, i: usize) -> (r: Option<(u8, u8, u8, u8)>)
    requires
        i <= t@.len(),
    ensures
        forall|p: u8, q: u8, u: u8, w: u8|
            t@.subrange(i as int, t@.len() as int) == #[trigger] v4_text(p, q, u, w) ==> r
                == Some::<(u8, u8, u8, u8)>((p, q, u, w)),
{
    let len = t.len();
    let ra = read_octet(t, i, false);
    let i1 = next_pos(t, &ra);
    let rb = read_octet(t, i1, false);
    let i2 = next_pos(t, &rb);
    let rc = read_octet(t, i2, false);
    let i3 = next_pos(t, &rc);
    let rd = read_octet(t, i3, true);
    proof {
        assert forall|p: u8, q: u8, u: u8, w: u8|
            t@.subrange(i as int, t@.len() as int) == #[trigger] v4_text(p, q, u, w) implies ra
            == Some::<(u8, usize)>((p, i1)) && rb == Some::<(u8, usize)>((q, i2)) && rc == Some::<
            (u8, usize),
        >((u, i3)) && (rd matches Some(x) && x.0 == w) by {
            lemma_quad_layout(t@, i as int, p, q, u, w);
            assert(len == t@.len());
            assert(i1 == i + dec_text(p as nat).len() + 1);
            assert(i2 == i1 + dec_text(q as nat).len() + 1);
            assert(i3 == i2 + dec_text(u as nat).len() + 1);
        }
    }
    match (ra, rb, rc, rd) {
        (Some((a, _)), Some((b, _)), Some((c, _)), Some((d, _))) => Some((a, b, c, d)),
        _ => None,
    }
}

/// Reads colon-separated hexadecimal groups filling exactly `t[i..end]`.
fn read_groups(t: &Vec<char>, i: usize, end: usize) -> (r: Option<Vec<u16>>)
    requires
        i <= end <= t@.len(),
    ensures
        r matches Some(g) ==> g@.len() <= end - i,
{
    let mut groups: Vec<u16> = Vec::new();
    if i == end {
        return Some(groups);
    }
    let mut k: usize = i;
    while k < end
        invariant
            i <= k <= end <= t@.len(),
            groups@.len() <= k - i,
        decreases end - k,
    {
        let (v, j) = read_number(t, k, end)?;
        groups.push(v);
        if j == end {
            return Some(groups);
        }
        if t[j] != ':' || j + 1 == end {
            return None;
        }
        k = j + 1;
    }
    None
}

/// Reads `t[start..]` as an IPv6 address in any of the usual spellings: one to four
/// hexadecimal digits per group in either case, at most one `::` standing for one or
/// more zero groups, and optionally a dotted quad for the last two groups.
fn read_v6(t: &Vec<char>, start: usize) -> (r: Option<[u16; 8]>)
    requires
        start <= t@.len(),
{
    let end = t.len();
    let mut last_colon: usize = end;
    let mut has_dot = false;
    let mut double: usize = end;
    let mut k: usize = start;
    while k < end
        invariant
            start <= k <= end,
            end == t@.len(),
            last_colon == end || (start <= last_colon < k),
            double == end || (start <= double < k && double + 2 <= end && double <= last_colon
                < end),
        decreases end - k,
    {
        if t[k] == '.' {
            has_dot = true;
        }
        if t[k] == ':' {
            last_colon = k;
            if double == end && k + 1 < end && t[k + 1] == ':' {
                double = k;
            }
        }
        k = k + 1;
    }
    let mut tail: Vec<u16> = Vec::new();
    let mut stop: usize = end;
    if has_dot {
        if last_colon == end {
            return None;
        }
        let (a, b, c, d) = read_quad(t, last_colon + 1)?;
        tail.push((a as u16) * 256 + b as u16);
        tail.push((c as u16) * 256 + d as u16);
        stop = last_colon + 1;
    }
    let want: usize = 8 - tail.len();
    let mut all: Vec<u16> = Vec::new();
    if double < end {
        let left = read_groups(t, start, double)?;
        let right_end = if has_dot && double + 2 < stop { stop - 1 } else { stop };
        if right_end < double + 2 {
            return None;
        }
        let right = read_groups(t, double + 2, right_end)?;
        if left.len() + right.len() >= want {
            return None;
        }
        all = left;
        while all.len() + right.len() < want
            invariant
                all@.len() + right@.len() <= want <= 8,
            decreases want - all@.len(),
        {
            all.push(0);
        }
        let mut j: usize = 0;
        while j < right.len()
            invariant
                j <= right@.len(),
                all@.len() + right@.len() - j == want,
            decreases right@.len() - j,
        {
            all.push(right[j]);
            j = j + 1;
        }
    } else {
        let groups_end = if has_dot { stop - 1 } else { end };
        if groups_end < start {
            return None;
        }
        all = read_groups(t, start, groups_end)?;
    }
    if all.len() != want {
        return None;
    }
    let mut j: usize = 0;
    while j < tail.len()
        invariant
            j <= tail@.len() <= 2,
            all@.len() == want + j,
            want + tail@.len() == 8,
        decreases tail@.len() - j,
    {
        all.push(tail[j]);
        j = j + 1;
    }
    Some([all[0], all[1], all[2], all[3], all[4], all[5], all[6], all[7]])
}

fn prefix(t: &Vec<char>, k: usize) -> (r: Vec<char>)
    requires
        k <= t@.len(),
    ensures
        r@ == t@.subrange(0, k as int),
{
    let mut r: Vec<char> = Vec::new();
    let mut i: usize = 0;
    while i < k
        invariant
            i <= k <= t@.len(),
            r@ == t@.subrange(0, i as int),
        decreases k - i,
    {
        r.push(t[i]);
        i = i + 1;
        assert(r@ =~= t@.subrange(0, i as int));
    }
    r
}

/// What decoding `t` gives: the error that each malformed payload gets; an address only
/// of the family its token names; an IPv4 address exactly on that address's encoding.
pub open spec fn decode_spec(t: Seq<char>, r: Result<Address, CodecError>) -> bool {
    &&& (space_index(t, 0) == t.len()) <==> (r matches Err(CodecError::MissingSpace))
    &&& (space_index(t, 0) < t.len() && token_family(family_token(t)) is None) <==> (
    r matches Err(CodecError::UnsupportedFamily { .. }))
    &&& r matches Err(CodecError::UnsupportedFamily { family }) ==> family@ == family_token(t)
    &&& r matches Err(CodecError::InvalidAddress { expected }) ==> token_family(family_token(t))
        == Some(expected)
    &&& r matches Ok(a) ==> token_family(family_token(t)) == Some(a.family_of())
    &&& r matches Ok(a) ==> (a is V4 ==> body_text(a) == t)
    &&& forall|p: u8, q: u8, u: u8, w: u8|
        t == #[trigger] body_text(Address::V4(p, q, u, w)) ==> r == Ok::<Address, CodecError>(
            Address::V4(p, q, u, w),
        )
}

/// Decodes a payload held as chars.
pub fn decode(t: &Vec<char>) -> (r: Result<Address, CodecError>)
    ensures
        decode_spec(t@, r),
{
    let n = t.len();
    let mut k: usize = 0;
    while k < n && t[k] != ' '
        invariant
            k <= n == t@.len(),
            space_index(t@, 0) == space_index(t@, k as int),
            forall|j: int| 0 <= j < k ==> t@[j] != ' ',
        decreases n - k,
    {
        k = k + 1;
    }
    if k == n {
        proof {
            assert forall|p: u8, q: u8, u: u8, w: u8|
                t@ == #[trigger] body_text(Address::V4(p, q, u, w)) implies false by {
                assert(body_text(Address::V4(p, q, u, w))[4] == ' ');
            }
        }
        return Err(CodecError::MissingSpace);
    }
    let ghost tok = t@.subrange(0, k as int);
    assert(t@ =~= tok + seq![' '] + t@.subrange(k + 1, n as int));
    let is_v4 = k == 4 && t[0] == 'I' && t[1] == 'P' && t[2] == 'v' && t[3] == '4';
    let is_v6 = k == 4 && t[0] == 'I' && t[1] == 'P' && t[2] == 'v' && t[3] == '6';
    proof {
        if is_v4 {
            assert(tok =~= v4_token());
        }
        if is_v6 {
            assert(tok =~= v6_token());
        }
        if tok == v4_token() {
            assert(tok[3] == '4');
        }
        if tok == v6_token() {
            assert(tok[3] == '6');
        }
    }
    proof {
        assert forall|p: u8, q: u8, u: u8, w: u8|
            t@ == #[trigger] body_text(Address::V4(p, q, u, w)) implies k == 4 && is_v4
            && t@.subrange(5, n as int) == v4_text(p, q, u, w) by {
            let b = body_text(Address::V4(p, q, u, w));
            assert(b[0] == 'I' && b[1] == 'P' && b[2] == 'v' && b[3] == '4' && b[4] == ' ');
            assert(b.subrange(5, b.len() as int) =~= v4_text(p, q, u, w));
        }
    }
    let mut out: Vec<char> = Vec::new();
    if is_v4 {
        match read_quad(t, k + 1) {
            Some((a, b, c, d)) => {
                push_v4(&mut out, a, b, c, d);
                if same_tail(&out, t, k + 1) {
                    return Ok(Address::V4(a, b, c, d));
                }
            },
            None => {},
        }
        Err(CodecError::InvalidAddress { expected: Family::V4 })
    } else if is_v6 {
        match read_v6(t, k + 1) {
            Some(s) => Ok(Address::V6(s)),
            None => Err(CodecError::InvalidAddress { expected: Family::V6 }),
        }
    } else {
        let fam = prefix(t, k);
        Err(CodecError::UnsupportedFamily { family: string_of(&fam) })
    }
}

/// Decoding the payload of an IPv4 address gives that address back: every result that
/// `decode` may give on the text of `encode(a)` is `Ok(a)`.
pub proof fn lemma_round_trip_v4(a: Address, r: Result<Address, CodecError>)
    requires
        a is V4,
        decode_spec(body_text(a), r),
    ensures
        r == Ok::<Address, CodecError>(a),
{
    match a {
        Address::V4(p, q, u, w) => {
            assert(body_text(a) == body_text(Address::V4(p, q, u, w)));
        },
        Address::V6(_) => {},
    }
}

/// Encodes an address as its payload, held as chars.
pub fn encode(a: &Address) -> (r: Vec<char>)
    ensures
        r@ == body_text(*a),
{
    let mut out: Vec<char> = Vec::new();
    out.push('I');
    out.push('P');
    out.push('v');
    match a {
        Address::V4(p, q, s, u) => {
            out.push('4');
            out.push(' ');
            push_v4(&mut out, *p, *q, *s, *u);
        },
        Address::V6(g) => {
            out.push('6');
            out.push(' ');
            push_v6(&mut out, g);
        },
    }
    assert(out@ =~= body_text(*a));
    out
}

/// The answer of an echo remote: the address it saw the caller connect from.
pub struct IpResponse {
    pub addr: Address,
}

impl IpResponse {
    pub fn new(ip: Address) -> (r: Self)
        ensures
            r.addr == ip,
    {
        IpResponse { addr: ip }
    }

    /// The payload: family token, one space, canonical address text.
    pub fn to_body(self) -> (r: String)
        ensures
            r@ == body_text(self.addr),
    {
        string_of(&encode(&self.addr))
    }

    pub fn ip_addr(self) -> (r: Address)
        ensures
            r == self.addr,
    {
        self.addr
    }

    /// Decodes a payload: an IPv4 address in dotted-quad form, or an IPv6 address in
    /// any of the usual spellings.
    pub fn parse(text: String) -> (r: Result<Self, CodecError>)
        ensures
            decode_spec(
                text@,
                match r {
                    Ok(x) => Ok(x.addr),
                    Err(e) => Err(e),
                },
            ),
    {
        let t = chars_of(text.as_str());
        match decode(&t) {
            Ok(a) => Ok(IpResponse { addr: a }),
            Err(e) => Err(e),
        }
    }
}

} // verus!

//! The save-file codec: a [`Player`] and a [`World`] are framed into a
//! character sequence and parsed back, with the round trip proved exact.
//! Numbers are written in decimal with a one-character terminator, strings
//! are length-prefixed, so the format is self-delimiting and needs no
//! escaping. Reading and writing the actual file is the caller's business;
//! the library only produces and checks the characters.
use vstd::prelude::*;
use crate::items::{Item, ItemModel, ItemType};
use crate::player::{Player, PlayerModel};
use crate::world::{Exit, ExitModel, Room, RoomModel, World, WorldModel};

verus! {

/// A decimal digit.
pub open spec fn is_digit(c: char) -> bool {
    '0' <= c && c <= '9'
}

/// The digit character for a value below ten.
pub open spec fn digit_char(d: nat) -> char {
    if d == 0 {
        '0'
    } else if d == 1 {
        '1'
    } else if d == 2 {
        '2'
    } else if d == 3 {
        '3'
    } else if d == 4 {
        '4'
    } else if d == 5 {
        '5'
    } else if d == 6 {
        '6'
    } else if d == 7 {
        '7'
    } else if d == 8 {
        '8'
    } else {
        '9'
    }
}

/// The value of a digit character (zero for anything else).
pub open spec fn digit_val(c: char) -> nat {
    if c == '0' {
        0
    } else if c == '1' {
        1
    } else if c == '2' {
        2
    } else if c == '3' {
        3
    } else if c == '4' {
        4
    } else if c == '5' {
        5
    } else if c == '6' {
        6
    } else if c == '7' {
        7
    } else if c == '8' {
        8
    } else if c == '9' {
        9
    } else {
        0
    }
}

/// Decimal digits of `n`, most significant first, without leading zeros
/// (a single `'0'` for zero).
pub open spec fn digits(n: nat) -> Seq<char>
    decreases n,
{
    if n < 10 {
        seq![digit_char(n)]
    } else {
        digits(n / 10).push(digit_char(n % 10))
    }
}

/// Value of a digit string.
pub open spec fn val_of(s: Seq<char>) -> nat
    decreases s.len(),
{
    if s.len() == 0 {
        0
    } else {
        val_of(s.drop_last()) * 10 + digit_val(s.last())
    }
}

/// The digit string of `n` is non-empty, all digits, and evaluates back
/// to `n`.
pub proof fn lemma_digits(n: nat)
    ensures
        digits(n).len() >= 1,
        forall|i: int| 0 <= i < digits(n).len() ==> is_digit(#[trigger] digits(n)[i]),
        val_of(digits(n)) == n,
    decreases n,
{
    if n < 10 {
        assert(digits(n) =~= seq![digit_char(n)]);
        assert(digits(n).drop_last() =~= Seq::<char>::empty());
        assert(val_of(Seq::<char>::empty()) == 0);
        assert(digits(n).last() == digit_char(n));
        assert(digit_val(digit_char(n)) == n);
        assert(val_of(digits(n)) == val_of(digits(n).drop_last()) * 10 + digit_val(
            digits(n).last(),
        ));
    } else {
        lemma_digits(n / 10);
        vstd::arithmetic::div_mod::lemma_fundamental_div_mod(n as int, 10);
        let d = digits(n);
        assert(d.drop_last() =~= digits(n / 10));
        assert(d.last() == digit_char(n % 10));
        assert(digit_val(digit_char(n % 10)) == n % 10);
        assert forall|i: int| 0 <= i < d.len() implies is_digit(#[trigger] d[i]) by {
            if i < d.len() - 1 {
                assert(d[i] == digits(n / 10)[i]);
            }
        }
    }
}

/// The value of a digit-string prefix never exceeds the whole string's.
pub proof fn lemma_val_prefix_le(s: Seq<char>, j: int)
    requires
        0 <= j <= s.len(),
    ensures
        val_of(s.take(j)) <= val_of(s),
    decreases s.len() - j,
{
    if j == s.len() {
        assert(s.take(j) =~= s);
    } else {
        lemma_val_prefix_le(s, j + 1);
        assert(s.take(j + 1).drop_last() =~= s.take(j));
        assert(val_of(s.take(j + 1)) == val_of(s.take(j)) * 10 + digit_val(s.take(j + 1).last()));
    }
}

/// The tail of `s` from `pos` on.
pub open spec fn tail(s: Seq<char>, pos: int) -> Seq<char> {
    s.subrange(pos, s.len() as int)
}

/// Consuming a known prefix advances the tail.
pub proof fn lemma_tail_split(s: Seq<char>, pos: int, a: Seq<char>, b: Seq<char>)
    requires
        0 <= pos <= s.len(),
        tail(s, pos) == a + b,
    ensures
        pos + a.len() + b.len() == s.len(),
        tail(s, pos + a.len()) == b,
{
    assert(tail(s, pos).len() == a.len() + b.len());
    assert forall|i: int| 0 <= i < b.len() implies tail(s, pos + a.len() as int)[i] == b[i] by {
        assert(tail(s, pos)[a.len() + i] == (a + b)[a.len() + i]);
    }
    assert(tail(s, pos + a.len() as int) =~= b);
}

/// Parses a decimal number ended by `term`: the digits are accumulated
/// into a `u64` and the terminator consumed. Whenever the input at `pos`
/// is `digits(v)` then `term` then anything, the parse succeeds with
/// exactly `v` and stops right after the terminator.
fn parse_number(s: &Vec<char>, pos: usize, term: char) -> (r: Option<(u64, usize)>)
    requires
        !is_digit(term),
        pos <= s@.len(),
    ensures
        match r {
            Some(p) => pos < p.1 <= s@.len(),
            None => true,
        },
        forall|v: u64, rest: Seq<char>|
            #![trigger digits(v as nat).add(seq![term]).add(rest)]
            tail(s@, pos as int) == digits(v as nat).add(seq![term]).add(rest) ==> match r {
                Some(p) => p.0 == v && p.1 == pos + digits(v as nat).len() + 1,
                None => false,
            },
{
    let len = s.len();
    let mut i: usize = pos;
    let mut val: u64 = 0;
    let mut overflow: bool = false;
    while i < len && !overflow && '0' <= s[i] && s[i] <= '9'
        invariant
            pos <= i <= len,
            len == s@.len(),
            forall|j: int| pos <= j < i ==> is_digit(s@[j]),
            val == val_of(s@.subrange(pos as int, i as int)),
            overflow ==> i < len && is_digit(s@[i as int]) && val_of(
                s@.subrange(pos as int, i as int),
            ) * 10 + digit_val(s@[i as int]) > u64::MAX,
        decreases len - i + (if overflow { 0int } else { 1int }),
    {
        let c = s[i];
        let d = digit_value(c);
        if val <= (u64::MAX - d) / 10 {
            proof {
                vstd::arithmetic::div_mod::lemma_fundamental_div_mod(
                    (u64::MAX - d) as int,
                    10,
                );
                assert(s@.subrange(pos as int, i as int + 1).drop_last() =~= s@.subrange(
                    pos as int,
                    i as int,
                ));
            }
            val = val * 10 + d;
            i = i + 1;
        } else {
            proof {
                vstd::arithmetic::div_mod::lemma_fundamental_div_mod(
                    (u64::MAX - d) as int,
                    10,
                );
            }
            overflow = true;
        }
    }
    let ghost scanned = s@.subrange(pos as int, i as int);
    proof {
        assert forall|v: u64, rest: Seq<char>|
            #![trigger digits(v as nat).add(seq![term]).add(rest)]
            tail(s@, pos as int) == digits(v as nat).add(seq![term]).add(rest) implies !overflow
            && i < len && i == pos + digits(v as nat).len() && s@[i as int] == term && val == v by {
            let dv = digits(v as nat);
            lemma_digits(v as nat);
            assert(dv.add(seq![term]).add(rest) =~= dv.add(seq![term].add(rest)));
            lemma_tail_split(s@, pos as int, dv, seq![term].add(rest));
            assert forall|j: int| 0 <= j < dv.len() implies s@[pos + j] == dv[j] by {
                assert(tail(s@, pos as int)[j] == dv.add(seq![term]).add(rest)[j]);
            }
            assert(s@[pos + dv.len()] == term) by {
                assert(tail(s@, pos as int)[dv.len() as int] == dv.add(seq![term]).add(
                    rest,
                )[dv.len() as int]);
            }
            assert(pos + dv.len() < len);
            // The scan cannot have passed the terminator: everything it
            // scanned is a digit, and the terminator is not.
            assert(i <= pos + dv.len()) by {
                if i > pos + dv.len() {
                    assert(is_digit(s@[pos + dv.len()]));
                }
            }
            if i < pos + dv.len() {
                assert(s@[pos + (i - pos)] == dv[i - pos]);
                assert(s@[i as int] == dv[i - pos]);
                assert(is_digit(s@[i as int]));
            }
            // Whatever was scanned is a prefix of the digit string.
            assert(scanned =~= dv.take(i - pos));
            if overflow {
                assert(i < pos + dv.len()) by {
                    if i == pos + dv.len() {
                        assert(is_digit(s@[i as int]));
                    }
                }
                lemma_val_prefix_le(dv, i - pos + 1);
                assert(dv.take((i - pos) + 1).drop_last() =~= dv.take(i - pos));
                assert(dv.take((i - pos) + 1).last() == dv[i - pos]);
                assert(val_of(dv.take(i - pos + 1)) == val_of(dv.take(i - pos)) * 10 + digit_val(
                    dv[i - pos],
                ));
                assert(val_of(scanned) * 10 + digit_val(s@[i as int]) <= v);
                assert(false);
            }
            // Nor can it have stopped early: it only stops at a non-digit
            // or at the end of the input.
            assert(i == pos + dv.len());
            assert(scanned =~= dv);
            assert(val_of(dv) == v);
        }
    }
    if i < len && !overflow {
        let c = s[i];
        if c == term {
            return Some((val, i + 1));
        }
    }
    None
}

/// A number ended by `';'`.
pub open spec fn spec_enc_num(n: nat) -> Seq<char> {
    digits(n) + seq![';']
}

/// A length prefix ended by `':'`.
pub open spec fn spec_enc_len(n: nat) -> Seq<char> {
    digits(n) + seq![':']
}

/// A signed number: an optional minus sign, then the magnitude, ended by
/// `';'`.
pub open spec fn spec_enc_i32(v: int) -> Seq<char> {
    if v < 0 {
        seq!['-'] + digits((-v) as nat) + seq![';']
    } else {
        digits(v as nat) + seq![';']
    }
}

/// A string: its character count, then the characters themselves.
pub open spec fn spec_enc_str(s: Seq<char>) -> Seq<char> {
    spec_enc_len(s.len()) + s
}

/// An optional number: `'N'` alone, or `'S'` then the number.
pub open spec fn spec_enc_opt_i32(o: Option<int>) -> Seq<char> {
    match o {
        None => seq!['N'],
        Some(v) => seq!['S'] + spec_enc_i32(v),
    }
}

/// An optional string: `'N'` alone, or `'S'` then the string.
pub open spec fn spec_enc_opt_str(o: Option<Seq<char>>) -> Seq<char> {
    match o {
        None => seq!['N'],
        Some(s) => seq!['S'] + spec_enc_str(s),
    }
}

/// An item variant tag, one character each.
pub open spec fn spec_enc_type(t: ItemType) -> Seq<char> {
    match t {
        ItemType::Healing => seq!['H'],
        ItemType::Weapon => seq!['W'],
        ItemType::Quest => seq!['Q'],
        ItemType::Utility => seq!['U'],
    }
}

/// The numeric value of a digit character, agreeing with [`digit_val`].
fn digit_value(c: char) -> (r: u64)
    requires
        is_digit(c),
    ensures
        r == digit_val(c),
        r <= 9,
{
    if c == '0' {
        0
    } else if c == '1' {
        1
    } else if c == '2' {
        2
    } else if c == '3' {
        3
    } else if c == '4' {
        4
    } else if c == '5' {
        5
    } else if c == '6' {
        6
    } else if c == '7' {
        7
    } else if c == '8' {
        8
    } else {
        9
    }
}

/// Emits one digit character.
fn push_digit(out: &mut Vec<char>, d: u64)
    requires
        d < 10,
    ensures
        final(out)@ == old(out)@.push(digit_char(d as nat)),
{
    if d == 0 {
        out.push('0');
    } else if d == 1 {
        out.push('1');
    } else if d == 2 {
        out.push('2');
    } else if d == 3 {
        out.push('3');
    } else if d == 4 {
        out.push('4');
    } else if d == 5 {
        out.push('5');
    } else if d == 6 {
        out.push('6');
    } else if d == 7 {
        out.push('7');
    } else if d == 8 {
        out.push('8');
    } else {
        out.push('9');
    }
}

/// Emits the decimal digits of `n`.
fn push_digits(out: &mut Vec<char>, n: u64)
    ensures
        final(out)@ == old(out)@ + digits(n as nat),
    decreases n,
{
    if n < 10 {
        push_digit(out, n);
        proof {
            assert(out@ =~= old(out)@ + digits(n as nat));
        }
    } else {
        proof {
            vstd::arithmetic::div_mod::lemma_fundamental_div_mod(n as int, 10);
        }
        push_digits(out, n / 10);
        push_digit(out, n % 10);
        proof {
            assert(out@ =~= old(out)@ + digits(n as nat));
        }
    }
}

/// Emits `spec_enc_num(n)`.
fn push_num(out: &mut Vec<char>, n: u64)
    ensures
        final(out)@ == old(out)@ + spec_enc_num(n as nat),
{
    push_digits(out, n);
    out.push(';');
    proof {
        assert(out@ =~= old(out)@ + spec_enc_num(n as nat));
    }
}

/// Emits `spec_enc_len(n)`.
fn push_len(out: &mut Vec<char>, n: u64)
    ensures
        final(out)@ == old(out)@ + spec_enc_len(n as nat),
{
    push_digits(out, n);
    out.push(':');
    proof {
        assert(out@ =~= old(out)@ + spec_enc_len(n as nat));
    }
}

/// Emits `spec_enc_i32(v)`.
fn push_i32(out: &mut Vec<char>, v: i32)
    ensures
        final(out)@ == old(out)@ + spec_enc_i32(v as int),
{
    if v < 0 {
        out.push('-');
        let m: u64 = (-(v as i64)) as u64;
        push_digits(out, m);
        out.push(';');
        proof {
            assert(m as nat == (-(v as int)) as nat);
            assert(out@ =~= old(out)@ + spec_enc_i32(v as int));
        }
    } else {
        push_digits(out, v as u64);
        out.push(';');
        proof {
            assert(out@ =~= old(out)@ + spec_enc_i32(v as int));
        }
    }
}

/// Emits `spec_enc_str` of the string's characters.
fn push_str_enc(out: &mut Vec<char>, s: &str)
    ensures
        final(out)@ == old(out)@ + spec_enc_str(s@),
{
    let n = s.unicode_len();
    push_len(out, n as u64);
    let mut i: usize = 0;
    while i < n
        invariant
            0 <= i <= n,
            n == s@.len(),
            out@ == old(out)@ + spec_enc_len(s@.len()) + s@.take(i as int),
        decreases n - i,
    {
        let c = s.get_char(i);
        out.push(c);
        proof {
            assert(s@.take(i + 1) =~= s@.take(i as int).push(s@[i as int]));
            assert(out@ =~= old(out)@ + spec_enc_len(s@.len()) + s@.take(i + 1));
        }
        i = i + 1;
    }
    proof {
        assert(s@.take(n as int) =~= s@);
        assert(out@ =~= old(out)@ + spec_enc_str(s@));
    }
}

/// Emits `spec_enc_opt_i32(o)`.
fn push_opt_i32(out: &mut Vec<char>, o: &Option<i32>)
    ensures
        final(out)@ == old(out)@ + spec_enc_opt_i32(
            match *o {
                Some(v) => Some(v as int),
                None => None,
            },
        ),
{
    match o {
        None => {
            out.push('N');
            proof {
                assert(out@ =~= old(out)@ + seq!['N']);
            }
        },
        Some(v) => {
            out.push('S');
            push_i32(out, *v);
            proof {
                assert(out@ =~= old(out)@ + spec_enc_opt_i32(Some(*v as int)));
            }
        },
    }
}

/// Emits `spec_enc_opt_str(o)`.
fn push_opt_str(out: &mut Vec<char>, o: &Option<String>)
    ensures
        final(out)@ == old(out)@ + spec_enc_opt_str(
            match *o {
                Some(ref s) => Some(s@),
                None => None,
            },
        ),
{
    match o {
        None => {
            out.push('N');
            proof {
                assert(out@ =~= old(out)@ + seq!['N']);
            }
        },
        Some(s) => {
            out.push('S');
            push_str_enc(out, s.as_str());
            proof {
                assert(out@ =~= old(out)@ + spec_enc_opt_str(Some(s@)));
            }
        },
    }
}

/// Emits `spec_enc_type(t)`.
fn push_type(out: &mut Vec<char>, t: ItemType)
    ensures
        final(out)@ == old(out)@ + spec_enc_type(t),
{
    match t {
        ItemType::Healing => out.push('H'),
        ItemType::Weapon => out.push('W'),
        ItemType::Quest => out.push('Q'),
        ItemType::Utility => out.push('U'),
    }
    proof {
        assert(out@ =~= old(out)@ + spec_enc_type(t));
    }
}

/// A value representable in a signed 32-bit integer.
pub open spec fn i32_fits(v: int) -> bool {
    i32::MIN as int <= v <= i32::MAX as int
}

/// Magnitude of a number representable in 32 bits, as a `u64`.
pub open spec fn mag_of(v: int) -> u64 {
    if v < 0 {
        (-v) as u64
    } else {
        v as u64
    }
}

/// Parses `spec_enc_i32`.
fn parse_i32(s: &Vec<char>, pos: usize) -> (r: Option<(i32, usize)>)
    requires
        pos <= s@.len(),
    ensures
        match r {
            Some(p) => pos < p.1 <= s@.len(),
            None => true,
        },
        forall|v: int, rest: Seq<char>|
            #![trigger spec_enc_i32(v).add(rest)]
            (i32_fits(v) && tail(s@, pos as int) == spec_enc_i32(v).add(rest)) ==> match r {
                Some(p) => p.0 as int == v && p.1 == pos + spec_enc_i32(v).len(),
                None => false,
            },
{
    let len = s.len();
    proof {
        lemma_parse_i32_neg(s@, pos as int);
        lemma_parse_i32_pos(s@, pos as int);
    }
    if pos < len && s[pos] == '-' {
        let inner = match parse_number(s, pos + 1, ';') {
            Some(p) => p,
            None => {
                return None;
            },
        };
        let (m, end) = inner;
        if m > 2147483648u64 {
            return None;
        }
        let value: i32 = if m == 2147483648u64 {
            i32::MIN
        } else {
            -(m as i32)
        };
        Some((value, end))
    } else {
        let inner = match parse_number(s, pos, ';') {
            Some(p) => p,
            None => {
                return None;
            },
        };
        let (m, end) = inner;
        if m > 2147483647u64 {
            return None;
        }
        Some((m as i32, end))
    }
}

/// Bridges `spec_enc_i32` of a negative value to the digits form that
/// `parse_number` speaks of.
proof fn lemma_parse_i32_neg(s: Seq<char>, pos: int)
    requires
        0 <= pos <= s.len(),
    ensures
        forall|v: int, rest: Seq<char>|
            #![trigger spec_enc_i32(v).add(rest)]
            (i32_fits(v) && tail(s, pos) == spec_enc_i32(v).add(rest) && v < 0) ==> {
                &&& pos < s.len()
                &&& s[pos] == '-'
                &&& tail(s, pos + 1) == digits(mag_of(v) as nat).add(seq![';']).add(rest)
                &&& mag_of(v) <= 2147483648
                &&& mag_of(v) as int == -v
                &&& digits(mag_of(v) as nat).len() + 2 == spec_enc_i32(v).len()
            },
{
    assert forall|v: int, rest: Seq<char>|
        #![trigger spec_enc_i32(v).add(rest)]
        (i32_fits(v) && tail(s, pos) == spec_enc_i32(v).add(rest) && v < 0) implies {
        &&& pos < s.len()
        &&& s[pos] == '-'
        &&& tail(s, pos + 1) == digits(mag_of(v) as nat).add(seq![';']).add(rest)
        &&& mag_of(v) <= 2147483648
        &&& mag_of(v) as int == -v
        &&& digits(mag_of(v) as nat).len() + 2 == spec_enc_i32(v).len()
    } by {
        assert(mag_of(v) as nat == (-v) as nat);
        let dv = digits(mag_of(v) as nat);
        lemma_digits(mag_of(v) as nat);
        assert(spec_enc_i32(v).add(rest) =~= seq!['-'].add(dv.add(seq![';']).add(rest)));
        lemma_tail_split(s, pos, seq!['-'], dv.add(seq![';']).add(rest));
        assert(s[pos] == tail(s, pos)[0]);
    }
}

/// Bridges `spec_enc_i32` of a non-negative value to the digits form that
/// `parse_number` speaks of.
proof fn lemma_parse_i32_pos(s: Seq<char>, pos: int)
    requires
        0 <= pos <= s.len(),
    ensures
        forall|v: int, rest: Seq<char>|
            #![trigger spec_enc_i32(v).add(rest)]
            (i32_fits(v) && tail(s, pos) == spec_enc_i32(v).add(rest) && v >= 0) ==> {
                &&& tail(s, pos) == digits(mag_of(v) as nat).add(seq![';']).add(rest)
                &&& mag_of(v) <= 2147483647
                &&& mag_of(v) as int == v
                &&& (pos < s.len() && s[pos] != '-')
                &&& digits(mag_of(v) as nat).len() + 1 == spec_enc_i32(v).len()
            },
{
    assert forall|v: int, rest: Seq<char>|
        #![trigger spec_enc_i32(v).add(rest)]
        (i32_fits(v) && tail(s, pos) == spec_enc_i32(v).add(rest) && v >= 0) implies {
        &&& tail(s, pos) == digits(mag_of(v) as nat).add(seq![';']).add(rest)
        &&& mag_of(v) <= 2147483647
        &&& mag_of(v) as int == v
        &&& (pos < s.len() && s[pos] != '-')
        &&& digits(mag_of(v) as nat).len() + 1 == spec_enc_i32(v).len()
    } by {
        assert(mag_of(v) as nat == v as nat);
        let dv = digits(mag_of(v) as nat);
        lemma_digits(mag_of(v) as nat);
        assert(spec_enc_i32(v).add(rest) =~= dv.add(seq![';']).add(rest));
        assert(tail(s, pos)[0] == dv[0]);
        assert(is_digit(dv[0]));
    }
}

/// Parses `spec_enc_str`, handing the characters back as a `String`.
fn parse_string(s: &Vec<char>, pos: usize) -> (r: Option<(String, usize)>)
    requires
        pos <= s@.len(),
    ensures
        match r {
            Some(p) => pos < p.1 <= s@.len(),
            None => true,
        },
        forall|v: Seq<char>, rest: Seq<char>|
            #![trigger spec_enc_str(v).add(rest)]
            tail(s@, pos as int) == spec_enc_str(v).add(rest) ==> match r {
                Some(p) => p.0@ == v && p.1 == pos + spec_enc_str(v).len(),
                None => false,
            },
{
    let len = s.len();
    proof {
        lemma_parse_str_shape(s@, pos as int);
    }
    let inner = match parse_number(s, pos, ':') {
        Some(p) => p,
        None => {
            return None;
        },
    };
    let (n, mid) = inner;
    if n > (len - mid) as u64 {
        proof {
            assert forall|v: Seq<char>, rest: Seq<char>|
                #![trigger spec_enc_str(v).add(rest)]
                tail(s@, pos as int) == spec_enc_str(v).add(rest) implies false by {
                assert(tail(s@, pos as int).len() == spec_enc_str(v).len() + rest.len());
                assert(n as nat == v.len());
                assert(mid == pos + digits(v.len()).len() + 1);
                assert(len - mid == v.len() + rest.len());
            }
        }
        return None;
    }
    let count = n as usize;
    let mut out = String::new();
    let mut i: usize = 0;
    while i < count
        invariant
            0 <= i <= count,
            mid + count <= len,
            len == s@.len(),
            out@ == s@.subrange(mid as int, mid + i),
        decreases count - i,
    {
        crate::text::push_char(&mut out, s[mid + i]);
        proof {
            assert(out@ =~= s@.subrange(mid as int, mid + i + 1));
        }
        i = i + 1;
    }
    proof {
        assert forall|v: Seq<char>, rest: Seq<char>|
            #![trigger spec_enc_str(v).add(rest)]
            tail(s@, pos as int) == spec_enc_str(v).add(rest) implies out@ == v && mid + count
            == pos + spec_enc_str(v).len() by {
            assert(n == len_u64(v) && mid == pos + digits(v.len()).len() + 1);
            assert(out@ =~= v);
        }
    }
    Some((out, mid + count))
}

/// A string length as a `u64`; meaningful for any string that fits in
/// memory.
pub open spec fn len_u64(v: Seq<char>) -> u64 {
    v.len() as u64
}

/// Bridges `spec_enc_str` to the length-prefix form `parse_number` speaks
/// of, and pins the characters that follow it.
proof fn lemma_parse_str_shape(s: Seq<char>, pos: int)
    requires
        0 <= pos <= s.len(),
        s.len() <= u64::MAX,
    ensures
        forall|v: Seq<char>, rest: Seq<char>|
            #![trigger spec_enc_str(v).add(rest)]
            tail(s, pos) == spec_enc_str(v).add(rest) ==> {
                &&& v.len() <= s.len()
                &&& len_u64(v) as nat == v.len()
                &&& tail(s, pos) == digits(len_u64(v) as nat).add(seq![':']).add(v.add(rest))
                &&& digits(v.len()).len() + 1 + v.len() == spec_enc_str(v).len()
                &&& forall|j: int|
                    0 <= j < v.len() ==> s[pos + digits(v.len()).len() + 1 + j] == v[j]
            },
{
    assert forall|v: Seq<char>, rest: Seq<char>|
        #![trigger spec_enc_str(v).add(rest)]
        tail(s, pos) == spec_enc_str(v).add(rest) implies {
        &&& v.len() <= s.len()
        &&& len_u64(v) as nat == v.len()
        &&& tail(s, pos) == digits(len_u64(v) as nat).add(seq![':']).add(v.add(rest))
        &&& digits(v.len()).len() + 1 + v.len() == spec_enc_str(v).len()
        &&& forall|j: int| 0 <= j < v.len() ==> s[pos + digits(v.len()).len() + 1 + j] == v[j]
    } by {
        assert(tail(s, pos).len() == spec_enc_str(v).len() + rest.len());
        assert(v.len() <= s.len());
        assert(len_u64(v) as nat == v.len());
        let dv = digits(v.len());
        lemma_digits(v.len());
        assert(spec_enc_str(v).add(rest) =~= dv.add(seq![':']).add(v.add(rest)));
        lemma_tail_split(s, pos, dv.add(seq![':']), v.add(rest));
        assert forall|j: int| 0 <= j < v.len() implies s[pos + dv.len() + 1 + j] == v[j] by {
            assert(tail(s, pos + dv.len() + 1)[j] == v.add(rest)[j]);
        }
    }
}


/// An optional value representable in 32 bits.
pub open spec fn opt_i32_fits(o: Option<int>) -> bool {
    match o {
        Some(v) => i32_fits(v),
        None => true,
    }
}

/// Parses `spec_enc_opt_i32`.
fn parse_opt_i32(s: &Vec<char>, pos: usize) -> (r: Option<(Option<i32>, usize)>)
    requires
        pos <= s@.len(),
    ensures
        match r {
            Some(p) => pos < p.1 <= s@.len(),
            None => true,
        },
        forall|o: Option<int>, rest: Seq<char>|
            #![trigger spec_enc_opt_i32(o).add(rest)]
            (opt_i32_fits(o) && tail(s@, pos as int) == spec_enc_opt_i32(o).add(rest)) ==> match r {
                Some(p) => {
                    &&& (match (p.0, o) {
                        (Some(pv), Some(ov)) => pv as int == ov,
                        (None, None) => true,
                        _ => false,
                    })
                    &&& p.1 == pos + spec_enc_opt_i32(o).len()
                },
                None => false,
            },
{
    proof {
        lemma_opt_head::<int>(s@, pos as int);
    }
    let len = s.len();
    if pos < len && s[pos] == 'N' {
        return Some((None, pos + 1));
    }
    if pos < len && s[pos] == 'S' {
        let inner = match parse_i32(s, pos + 1) {
            Some(p) => p,
            None => {
                return None;
            },
        };
        return Some((Some(inner.0), inner.1));
    }
    None
}

/// Under an optional-value premise the head character decides the
/// variant, and in the `Some` case the payload encoding follows.
proof fn lemma_opt_head<T>(s: Seq<char>, pos: int)
    requires
        0 <= pos <= s.len(),
    ensures
        forall|enc: Seq<char>, rest: Seq<char>|
            #![trigger seq!['S'].add(enc).add(rest)]
            tail(s, pos) == seq!['S'].add(enc).add(rest) ==> pos < s.len() && s[pos] == 'S' && tail(
                s,
                pos + 1,
            ) == enc.add(rest),
        forall|rest: Seq<char>| #![trigger seq!['N'].add(rest)]
            tail(s, pos) == seq!['N'].add(rest) ==> pos < s.len() && s[pos] == 'N',
{
    assert forall|enc: Seq<char>, rest: Seq<char>|
        #![trigger seq!['S'].add(enc).add(rest)]
        tail(s, pos) == seq!['S'].add(enc).add(rest) implies pos < s.len() && s[pos] == 'S'
        && tail(s, pos + 1) == enc.add(rest) by {
        assert(seq!['S'].add(enc).add(rest) =~= seq!['S'].add(enc.add(rest)));
        lemma_tail_split(s, pos, seq!['S'], enc.add(rest));
        assert(s[pos] == tail(s, pos)[0]);
    }
    assert forall|rest: Seq<char>| #![trigger seq!['N'].add(rest)]
        tail(s, pos) == seq!['N'].add(rest) implies pos < s.len() && s[pos] == 'N' by {
        lemma_tail_split(s, pos, seq!['N'], rest);
        assert(s[pos] == tail(s, pos)[0]);
    }
}

/// Connects `spec_enc_opt_i32` / `spec_enc_opt_str` to the head-character
/// facts of [`lemma_opt_head`].
proof fn lemma_opt_enc_shape(s: Seq<char>, pos: int)
    requires
        0 <= pos <= s.len(),
    ensures
        forall|o: Option<int>, rest: Seq<char>|
            #![trigger spec_enc_opt_i32(o).add(rest)]
            tail(s, pos) == spec_enc_opt_i32(o).add(rest) ==> (match o {
                Some(v) => tail(s, pos) == seq!['S'].add(spec_enc_i32(v)).add(rest) && spec_enc_opt_i32(
                    o,
                ).len() == 1 + spec_enc_i32(v).len(),
                None => tail(s, pos) == seq!['N'].add(rest),
            }),
        forall|o: Option<Seq<char>>, rest: Seq<char>|
            #![trigger spec_enc_opt_str(o).add(rest)]
            tail(s, pos) == spec_enc_opt_str(o).add(rest) ==> (match o {
                Some(v) => tail(s, pos) == seq!['S'].add(spec_enc_str(v)).add(rest) && spec_enc_opt_str(
                    o,
                ).len() == 1 + spec_enc_str(v).len(),
                None => tail(s, pos) == seq!['N'].add(rest),
            }),
{
    assert forall|o: Option<int>, rest: Seq<char>|
        #![trigger spec_enc_opt_i32(o).add(rest)]
        tail(s, pos) == spec_enc_opt_i32(o).add(rest) implies (match o {
        Some(v) => tail(s, pos) == seq!['S'].add(spec_enc_i32(v)).add(rest) && spec_enc_opt_i32(
            o,
        ).len() == 1 + spec_enc_i32(v).len(),
        None => tail(s, pos) == seq!['N'].add(rest),
    }) by {
        match o {
            Some(v) => {
                assert(spec_enc_opt_i32(o).add(rest) =~= seq!['S'].add(spec_enc_i32(v)).add(rest));
            },
            None => {
                assert(spec_enc_opt_i32(o).add(rest) =~= seq!['N'].add(rest));
            },
        }
    }
    assert forall|o: Option<Seq<char>>, rest: Seq<char>|
        #![trigger spec_enc_opt_str(o).add(rest)]
        tail(s, pos) == spec_enc_opt_str(o).add(rest) implies (match o {
        Some(v) => tail(s, pos) == seq!['S'].add(spec_enc_str(v)).add(rest) && spec_enc_opt_str(
            o,
        ).len() == 1 + spec_enc_str(v).len(),
        None => tail(s, pos) == seq!['N'].add(rest),
    }) by {
        match o {
            Some(v) => {
                assert(spec_enc_opt_str(o).add(rest) =~= seq!['S'].add(spec_enc_str(v)).add(rest));
            },
            None => {
                assert(spec_enc_opt_str(o).add(rest) =~= seq!['N'].add(rest));
            },
        }
    }
}

/// Parses `spec_enc_opt_str`.
fn parse_opt_str(s: &Vec<char>, pos: usize) -> (r: Option<(Option<String>, usize)>)
    requires
        pos <= s@.len(),
    ensures
        match r {
            Some(p) => pos < p.1 <= s@.len(),
            None => true,
        },
        forall|o: Option<Seq<char>>, rest: Seq<char>|
            #![trigger spec_enc_opt_str(o).add(rest)]
            tail(s@, pos as int) == spec_enc_opt_str(o).add(rest) ==> match r {
                Some(p) => {
                    &&& (match (p.0, o) {
                        (Some(ref pv), Some(ov)) => pv@ == ov,
                        (None, None) => true,
                        _ => false,
                    })
                    &&& p.1 == pos + spec_enc_opt_str(o).len()
                },
                None => false,
            },
{
    proof {
        lemma_opt_head::<int>(s@, pos as int);
        lemma_opt_enc_shape(s@, pos as int);
    }
    let len = s.len();
    if pos < len && s[pos] == 'N' {
        return Some((None, pos + 1));
    }
    if pos < len && s[pos] == 'S' {
        let inner = match parse_string(s, pos + 1) {
            Some(p) => p,
            None => {
                return None;
            },
        };
        return Some((Some(inner.0), inner.1));
    }
    None
}

/// Parses `spec_enc_type`.
fn parse_type(s: &Vec<char>, pos: usize) -> (r: Option<(ItemType, usize)>)
    requires
        pos <= s@.len(),
    ensures
        match r {
            Some(p) => pos < p.1 <= s@.len(),
            None => true,
        },
        forall|t: ItemType, rest: Seq<char>|
            #![trigger spec_enc_type(t).add(rest)]
            tail(s@, pos as int) == spec_enc_type(t).add(rest) ==> match r {
                Some(p) => p.0 == t && p.1 == pos + 1,
                None => false,
            },
{
    proof {
        assert forall|t: ItemType, rest: Seq<char>|
            #![trigger spec_enc_type(t).add(rest)]
            tail(s@, pos as int) == spec_enc_type(t).add(rest) implies pos < s@.len()
            && s@[pos as int] == spec_enc_type(t)[0] by {
            lemma_tail_split(s@, pos as int, spec_enc_type(t), rest);
            assert(s@[pos as int] == tail(s@, pos as int)[0]);
        }
    }
    let len = s.len();
    if pos < len {
        let c = s[pos];
        if c == 'H' {
            return Some((ItemType::Healing, pos + 1));
        }
        if c == 'W' {
            return Some((ItemType::Weapon, pos + 1));
        }
        if c == 'Q' {
            return Some((ItemType::Quest, pos + 1));
        }
        if c == 'U' {
            return Some((ItemType::Utility, pos + 1));
        }
    }
    None
}


/// An item whose power fits in 32 bits (true of every real [`Item`]).
pub open spec fn item_fits(v: ItemModel) -> bool {
    opt_i32_fits(v.power)
}

/// One item: name, variant tag, power, usable-on room.
pub open spec fn spec_enc_item(v: ItemModel) -> Seq<char> {
    spec_enc_str(v.name) + spec_enc_type(v.item_type) + spec_enc_opt_i32(v.power)
        + spec_enc_opt_str(v.usable_on)
}

/// Emits `spec_enc_item` of the item's image.
fn push_item(out: &mut Vec<char>, it: &Item)
    ensures
        final(out)@ == old(out)@ + spec_enc_item(it@),
{
    push_str_enc(out, it.name.as_str());
    push_type(out, it.item_type);
    push_opt_i32(out, &it.power);
    push_opt_str(out, &it.usable_on);
    proof {
        assert(out@ =~= old(out)@ + spec_enc_item(it@));
    }
}

/// Splits an item premise into its four field premises, with the running
/// positions.
proof fn lemma_item_shape(s: Seq<char>, pos: int)
    requires
        0 <= pos <= s.len(),
    ensures
        forall|v: ItemModel, rest: Seq<char>|
            #![trigger spec_enc_item(v).add(rest)]
            tail(s, pos) == spec_enc_item(v).add(rest) ==> ({
                let l1 = spec_enc_str(v.name).len();
                let l2 = spec_enc_type(v.item_type).len();
                let l3 = spec_enc_opt_i32(v.power).len();
                let l4 = spec_enc_opt_str(v.usable_on).len();
                &&& tail(s, pos) == spec_enc_str(v.name).add(
                    spec_enc_type(v.item_type).add(
                        spec_enc_opt_i32(v.power).add(spec_enc_opt_str(v.usable_on).add(rest)),
                    ),
                )
                &&& tail(s, pos + l1) == spec_enc_type(v.item_type).add(
                    spec_enc_opt_i32(v.power).add(spec_enc_opt_str(v.usable_on).add(rest)),
                )
                &&& tail(s, pos + l1 + l2) == spec_enc_opt_i32(v.power).add(
                    spec_enc_opt_str(v.usable_on).add(rest),
                )
                &&& tail(s, pos + l1 + l2 + l3) == spec_enc_opt_str(v.usable_on).add(rest)
                &&& spec_enc_item(v).len() == l1 + l2 + l3 + l4
            }),
{
    assert forall|v: ItemModel, rest: Seq<char>|
        #![trigger spec_enc_item(v).add(rest)]
        tail(s, pos) == spec_enc_item(v).add(rest) implies ({
        let l1 = spec_enc_str(v.name).len();
        let l2 = spec_enc_type(v.item_type).len();
        let l3 = spec_enc_opt_i32(v.power).len();
        let l4 = spec_enc_opt_str(v.usable_on).len();
        &&& tail(s, pos) == spec_enc_str(v.name).add(
            spec_enc_type(v.item_type).add(
                spec_enc_opt_i32(v.power).add(spec_enc_opt_str(v.usable_on).add(rest)),
            ),
        )
        &&& tail(s, pos + l1) == spec_enc_type(v.item_type).add(
            spec_enc_opt_i32(v.power).add(spec_enc_opt_str(v.usable_on).add(rest)),
        )
        &&& tail(s, pos + l1 + l2) == spec_enc_opt_i32(v.power).add(
            spec_enc_opt_str(v.usable_on).add(rest),
        )
        &&& tail(s, pos + l1 + l2 + l3) == spec_enc_opt_str(v.usable_on).add(rest)
        &&& spec_enc_item(v).len() == l1 + l2 + l3 + l4
    }) by {
        let e1 = spec_enc_str(v.name);
        let e2 = spec_enc_type(v.item_type);
        let e3 = spec_enc_opt_i32(v.power);
        let e4 = spec_enc_opt_str(v.usable_on);
        assert(spec_enc_item(v).add(rest) =~= e1.add(e2.add(e3.add(e4.add(rest)))));
        lemma_tail_split(s, pos, e1, e2.add(e3.add(e4.add(rest))));
        lemma_tail_split(s, pos + e1.len(), e2, e3.add(e4.add(rest)));
        lemma_tail_split(s, pos + e1.len() + e2.len(), e3, e4.add(rest));
    }
}

/// Parses `spec_enc_item`.
fn parse_item(s: &Vec<char>, pos: usize) -> (r: Option<(Item, usize)>)
    requires
        pos <= s@.len(),
    ensures
        match r {
            Some(p) => pos < p.1 <= s@.len(),
            None => true,
        },
        forall|v: ItemModel, rest: Seq<char>|
            #![trigger spec_enc_item(v).add(rest)]
            (item_fits(v) && tail(s@, pos as int) == spec_enc_item(v).add(rest)) ==> match r {
                Some(p) => p.0@ == v && p.1 == pos + spec_enc_item(v).len(),
                None => false,
            },
{
    proof {
        lemma_item_shape(s@, pos as int);
    }
    let (name, p1) = match parse_string(s, pos) {
        Some(p) => p,
        None => {
            return None;
        },
    };
    let (ty, p2) = match parse_type(s, p1) {
        Some(p) => p,
        None => {
            return None;
        },
    };
    let (power, p3) = match parse_opt_i32(s, p2) {
        Some(p) => p,
        None => {
            return None;
        },
    };
    let (usable_on, p4) = match parse_opt_str(s, p3) {
        Some(p) => p,
        None => {
            return None;
        },
    };
    let it = Item { name, item_type: ty, power, usable_on };
    proof {
        assert forall|v: ItemModel, rest: Seq<char>|
            #![trigger spec_enc_item(v).add(rest)]
            (item_fits(v) && tail(s@, pos as int) == spec_enc_item(v).add(rest)) implies it@ == v
            && p4 == pos + spec_enc_item(v).len() by {
            assert(it@ =~~= v);
        }
    }
    Some((it, p4))
}


/// Every item of a list fits.
pub open spec fn items_fit(s: Seq<ItemModel>) -> bool {
    forall|i: int| 0 <= i < s.len() ==> item_fits(#[trigger] s[i])
}

/// One exit: direction, then destination.
pub open spec fn spec_enc_exit(v: ExitModel) -> Seq<char> {
    spec_enc_str(v.direction) + spec_enc_str(v.to)
}

/// Emits `spec_enc_exit` of the exit's image.
fn push_exit(out: &mut Vec<char>, e: &Exit)
    ensures
        final(out)@ == old(out)@ + spec_enc_exit(e@),
{
    push_str_enc(out, e.direction.as_str());
    push_str_enc(out, e.to.as_str());
    proof {
        assert(out@ =~= old(out)@ + spec_enc_exit(e@));
    }
}

/// Splits an exit premise into its two field premises.
proof fn lemma_exit_shape(s: Seq<char>, pos: int)
    requires
        0 <= pos <= s.len(),
    ensures
        forall|v: ExitModel, rest: Seq<char>|
            #![trigger spec_enc_exit(v).add(rest)]
            tail(s, pos) == spec_enc_exit(v).add(rest) ==> ({
                let l1 = spec_enc_str(v.direction).len();
                &&& tail(s, pos) == spec_enc_str(v.direction).add(spec_enc_str(v.to).add(rest))
                &&& tail(s, pos + l1) == spec_enc_str(v.to).add(rest)
                &&& spec_enc_exit(v).len() == l1 + spec_enc_str(v.to).len()
            }),
{
    assert forall|v: ExitModel, rest: Seq<char>|
        #![trigger spec_enc_exit(v).add(rest)]
        tail(s, pos) == spec_enc_exit(v).add(rest) implies ({
        let l1 = spec_enc_str(v.direction).len();
        &&& tail(s, pos) == spec_enc_str(v.direction).add(spec_enc_str(v.to).add(rest))
        &&& tail(s, pos + l1) == spec_enc_str(v.to).add(rest)
        &&& spec_enc_exit(v).len() == l1 + spec_enc_str(v.to).len()
    }) by {
        let e1 = spec_enc_str(v.direction);
        let e2 = spec_enc_str(v.to);
        assert(spec_enc_exit(v).add(rest) =~= e1.add(e2.add(rest)));
        lemma_tail_split(s, pos, e1, e2.add(rest));
    }
}

/// Parses `spec_enc_exit`.
fn parse_exit(s: &Vec<char>, pos: usize) -> (r: Option<(Exit, usize)>)
    requires
        pos <= s@.len(),
    ensures
        match r {
            Some(p) => pos < p.1 <= s@.len(),
            None => true,
        },
        forall|v: ExitModel, rest: Seq<char>|
            #![trigger spec_enc_exit(v).add(rest)]
            tail(s@, pos as int) == spec_enc_exit(v).add(rest) ==> match r {
                Some(p) => p.0@ == v && p.1 == pos + spec_enc_exit(v).len(),
                None => false,
            },
{
    proof {
        lemma_exit_shape(s@, pos as int);
    }
    let (direction, p1) = match parse_string(s, pos) {
        Some(p) => p,
        None => {
            return None;
        },
    };
    let (to, p2) = match parse_string(s, p1) {
        Some(p) => p,
        None => {
            return None;
        },
    };
    let e = Exit { direction, to };
    proof {
        assert forall|v: ExitModel, rest: Seq<char>|
            #![trigger spec_enc_exit(v).add(rest)]
            tail(s@, pos as int) == spec_enc_exit(v).add(rest) implies e@ == v && p2 == pos
            + spec_enc_exit(v).len() by {
            assert(e@ =~~= v);
        }
    }
    Some((e, p2))
}

/// The concatenated element encodings of a list, front first.
pub open spec fn spec_enc_items_body(s: Seq<ItemModel>) -> Seq<char>
    decreases s.len(),
{
    if s.len() == 0 {
        Seq::empty()
    } else {
        spec_enc_item(s[0]) + spec_enc_items_body(s.drop_first())
    }
}

/// A list: its length, then the elements.
pub open spec fn spec_enc_items(s: Seq<ItemModel>) -> Seq<char> {
    spec_enc_num(s.len()) + spec_enc_items_body(s)
}

/// Appending an element appends its encoding.
proof fn lemma_items_body_push(s: Seq<ItemModel>, x: ItemModel)
    ensures
        spec_enc_items_body(s.push(x)) == spec_enc_items_body(s) + spec_enc_item(x),
    decreases s.len(),
{
    if s.len() == 0 {
        assert(s.push(x).drop_first() =~= Seq::<ItemModel>::empty());
        assert(s.push(x)[0] == x);
        assert(s.push(x).len() == 1);
        assert(spec_enc_items_body(s.push(x)) == spec_enc_item(s.push(x)[0]) + spec_enc_items_body(
            s.push(x).drop_first(),
        ));
        assert(spec_enc_items_body(s.push(x).drop_first()) == Seq::<char>::empty());
        assert(spec_enc_items_body(s) == Seq::<char>::empty());
        assert(spec_enc_items_body(s.push(x)) =~= spec_enc_items_body(s) + spec_enc_item(x));
    } else {
        assert(s.push(x).drop_first() =~= s.drop_first().push(x));
        lemma_items_body_push(s.drop_first(), x);
        assert(s.push(x)[0] == s[0]);
        assert(spec_enc_items_body(s.push(x)) =~= spec_enc_items_body(s) + spec_enc_item(x));
    }
}

/// A list body is at least as long as the list.
proof fn lemma_items_body_len(s: Seq<ItemModel>)
    ensures
        spec_enc_items_body(s).len() >= s.len(),
    decreases s.len(),
{
    if s.len() > 0 {
        lemma_items_body_len(s.drop_first());
        lemma_digits(0);
    }
}

/// Emits `spec_enc_items` of the list's image.
fn push_items(out: &mut Vec<char>, v: &Vec<Item>)
    ensures
        final(out)@ == old(out)@ + spec_enc_items(v.deep_view()),
{
    let n = v.len();
    push_num(out, n as u64);
    let mut i: usize = 0;
    while i < n
        invariant
            0 <= i <= n,
            n == v@.len(),
            out@ == old(out)@ + spec_enc_num(v.deep_view().len()) + spec_enc_items_body(
                v.deep_view().take(i as int),
            ),
        decreases n - i,
    {
        push_item(out, &v[i]);
        proof {
            assert(v.deep_view().take(i + 1) =~= v.deep_view().take(i as int).push(
                v.deep_view()[i as int],
            ));
            lemma_items_body_push(v.deep_view().take(i as int), v.deep_view()[i as int]);
            assert(v[i as int]@ == v.deep_view()[i as int]);
            assert(out@ =~= old(out)@ + spec_enc_num(v.deep_view().len()) + spec_enc_items_body(
                v.deep_view().take(i + 1),
            ));
        }
        i = i + 1;
    }
    proof {
        assert(v.deep_view().take(n as int) =~= v.deep_view());
        assert(out@ =~= old(out)@ + spec_enc_items(v.deep_view()));
    }
}

/// Parses the `n` elements of a list body.
fn parse_items_body(s: &Vec<char>, pos: usize, n: u64) -> (r: Option<(Vec<Item>, usize)>)
    requires
        pos <= s@.len(),
    ensures
        match r {
            Some(p) => pos <= p.1 <= s@.len(),
            None => true,
        },
        forall|v: Seq<ItemModel>, rest: Seq<char>|
            #![trigger spec_enc_items_body(v).add(rest)]
            (items_fit(v) && v.len() == n && tail(s@, pos as int) == spec_enc_items_body(v).add(rest))
                ==> match r {
                Some(p) => p.0.deep_view() == v && p.1 == pos + spec_enc_items_body(v).len(),
                None => false,
            },
    decreases n,
{
    if n == 0 {
        let out: Vec<Item> = Vec::new();
        proof {
            assert forall|v: Seq<ItemModel>, rest: Seq<char>|
                #![trigger spec_enc_items_body(v).add(rest)]
                (items_fit(v) && v.len() == n && tail(s@, pos as int) == spec_enc_items_body(v).add(
                    rest,
                )) implies out.deep_view() == v && pos == pos + spec_enc_items_body(v).len() by {
                assert(out.deep_view() =~= v);
            }
        }
        return Some((out, pos));
    }
    proof {
        assert forall|v: Seq<ItemModel>, rest: Seq<char>|
            #![trigger spec_enc_items_body(v).add(rest)]
            (items_fit(v) && v.len() == n && tail(s@, pos as int) == spec_enc_items_body(v).add(rest))
            implies ({
            &&& tail(s@, pos as int) == spec_enc_item(v[0]).add(
                spec_enc_items_body(v.drop_first()).add(rest),
            )
            &&& tail(s@, pos as int + spec_enc_item(v[0]).len() as int) == spec_enc_items_body(
                v.drop_first(),
            ).add(rest)
            &&& spec_enc_items_body(v).len() == spec_enc_item(v[0]).len() + spec_enc_items_body(
                v.drop_first(),
            ).len()
            &&& item_fits(v[0])
            &&& items_fit(v.drop_first())
        }) by {
            assert(spec_enc_items_body(v).add(rest) =~= spec_enc_item(v[0]).add(
                spec_enc_items_body(v.drop_first()).add(rest),
            ));
            lemma_tail_split(
                s@,
                pos as int,
                spec_enc_item(v[0]),
                spec_enc_items_body(v.drop_first()).add(rest),
            );
            assert forall|j: int| 0 <= j < v.drop_first().len() implies item_fits(
                #[trigger] v.drop_first()[j],
            ) by {
                assert(v.drop_first()[j] == v[j + 1]);
            }
        }
    }
    let (head, p1) = match parse_item(s, pos) {
        Some(p) => p,
        None => {
            return None;
        },
    };
    let (mut rest_vec, p2) = match parse_items_body(s, p1, n - 1) {
        Some(p) => p,
        None => {
            return None;
        },
    };
    let ghost rv_shallow = rest_vec@;
    let ghost rv_deep = rest_vec.deep_view();
    let mut out: Vec<Item> = Vec::new();
    out.push(head);
    out.append(&mut rest_vec);
    proof {
        assert forall|v: Seq<ItemModel>, rest: Seq<char>|
            #![trigger spec_enc_items_body(v).add(rest)]
            (items_fit(v) && v.len() == n && tail(s@, pos as int) == spec_enc_items_body(v).add(rest))
            implies out.deep_view() == v && p2 == pos + spec_enc_items_body(v).len() by {
            assert(rv_deep == v.drop_first());
            assert(out@.len() == 1 + rv_shallow.len());
            assert forall|i: int| 0 <= i < out@.len() implies out.deep_view()[i] == v[i] by {
                if i == 0 {
                    assert(out@[0] == head);
                } else {
                    assert(out@[i] == rv_shallow[i - 1]);
                    assert(rv_deep[i - 1] == rv_shallow[i - 1].deep_view());
                    assert(v.drop_first()[i - 1] == v[i]);
                }
            }
            assert(out.deep_view() =~= v);
        }
    }
    Some((out, p2))
}

/// Parses `spec_enc_items`.
fn parse_items(s: &Vec<char>, pos: usize) -> (r: Option<(Vec<Item>, usize)>)
    requires
        pos <= s@.len(),
    ensures
        match r {
            Some(p) => pos < p.1 <= s@.len(),
            None => true,
        },
        forall|v: Seq<ItemModel>, rest: Seq<char>|
            #![trigger spec_enc_items(v).add(rest)]
            (items_fit(v) && tail(s@, pos as int) == spec_enc_items(v).add(rest)) ==> match r {
                Some(p) => p.0.deep_view() == v && p.1 == pos + spec_enc_items(v).len(),
                None => false,
            },
{
    let len = s.len();
    proof {
        assert forall|v: Seq<ItemModel>, rest: Seq<char>|
            #![trigger spec_enc_items(v).add(rest)]
            tail(s@, pos as int) == spec_enc_items(v).add(rest) implies ({
            &&& v.len() <= s@.len()
            &&& items_len_u64(v) as nat == v.len()
            &&& tail(s@, pos as int) == digits(items_len_u64(v) as nat).add(seq![';']).add(
                spec_enc_items_body(v).add(rest),
            )
            &&& tail(s@, pos as int + digits(v.len()).len() + 1) == spec_enc_items_body(v).add(
                rest,
            )
            &&& spec_enc_items(v).len() == digits(v.len()).len() + 1 + spec_enc_items_body(v).len()
        }) by {
            lemma_items_body_len(v);
            assert(tail(s@, pos as int).len() == spec_enc_items(v).len() + rest.len());
            let dv = digits(v.len());
            lemma_digits(v.len());
            assert(spec_enc_items(v).add(rest) =~= dv.add(seq![';']).add(
                spec_enc_items_body(v).add(rest),
            ));
            assert(dv.add(seq![';']).add(spec_enc_items_body(v).add(rest)) =~= dv.add(seq![';']).add(
                spec_enc_items_body(v),
            ).add(rest));
            lemma_tail_split(s@, pos as int, dv.add(seq![';']), spec_enc_items_body(v).add(rest));
        }
    }
    let (n, mid) = match parse_number(s, pos, ';') {
        Some(p) => p,
        None => {
            return None;
        },
    };
    match parse_items_body(s, mid, n) {
        Some(p) => Some(p),
        None => None,
    }
}

/// The list length as a `u64`; meaningful for any list that fits in
/// memory.
pub open spec fn items_len_u64(v: Seq<ItemModel>) -> u64 {
    v.len() as u64
}

/// The concatenated element encodings of a list, front first.
pub open spec fn spec_enc_strs_body(s: Seq<Seq<char>>) -> Seq<char>
    decreases s.len(),
{
    if s.len() == 0 {
        Seq::empty()
    } else {
        spec_enc_str(s[0]) + spec_enc_strs_body(s.drop_first())
    }
}

/// A list: its length, then the elements.
pub open spec fn spec_enc_strs(s: Seq<Seq<char>>) -> Seq<char> {
    spec_enc_num(s.len()) + spec_enc_strs_body(s)
}

/// Appending an element appends its encoding.
proof fn lemma_strs_body_push(s: Seq<Seq<char>>, x: Seq<char>)
    ensures
        spec_enc_strs_body(s.push(x)) == spec_enc_strs_body(s) + spec_enc_str(x),
    decreases s.len(),
{
    if s.len() == 0 {
        assert(s.push(x).drop_first() =~= Seq::<Seq<char>>::empty());
        assert(s.push(x)[0] == x);
        assert(s.push(x).len() == 1);
        assert(spec_enc_strs_body(s.push(x)) == spec_enc_str(s.push(x)[0]) + spec_enc_strs_body(
            s.push(x).drop_first(),
        ));
        assert(spec_enc_strs_body(s.push(x).drop_first()) == Seq::<char>::empty());
        assert(spec_enc_strs_body(s) == Seq::<char>::empty());
        assert(spec_enc_strs_body(s.push(x)) =~= spec_enc_strs_body(s) + spec_enc_str(x));
    } else {
        assert(s.push(x).drop_first() =~= s.drop_first().push(x));
        lemma_strs_body_push(s.drop_first(), x);
        assert(s.push(x)[0] == s[0]);
        assert(spec_enc_strs_body(s.push(x)) =~= spec_enc_strs_body(s) + spec_enc_str(x));
    }
}

/// A list body is at least as long as the list.
proof fn lemma_strs_body_len(s: Seq<Seq<char>>)
    ensures
        spec_enc_strs_body(s).len() >= s.len(),
    decreases s.len(),
{
    if s.len() > 0 {
        lemma_strs_body_len(s.drop_first());
        lemma_digits(0);
    }
}

/// Emits `spec_enc_strs` of the list's image.
fn push_strs(out: &mut Vec<char>, v: &Vec<String>)
    ensures
        final(out)@ == old(out)@ + spec_enc_strs(v.deep_view()),
{
    let n = v.len();
    push_num(out, n as u64);
    let mut i: usize = 0;
    while i < n
        invariant
            0 <= i <= n,
            n == v@.len(),
            out@ == old(out)@ + spec_enc_num(v.deep_view().len()) + spec_enc_strs_body(
                v.deep_view().take(i as int),
            ),
        decreases n - i,
    {
        push_str_enc(out, v[i].as_str());
        proof {
            assert(v.deep_view().take(i + 1) =~= v.deep_view().take(i as int).push(
                v.deep_view()[i as int],
            ));
            lemma_strs_body_push(v.deep_view().take(i as int), v.deep_view()[i as int]);
            assert(v[i as int]@ == v.deep_view()[i as int]);
            assert(out@ =~= old(out)@ + spec_enc_num(v.deep_view().len()) + spec_enc_strs_body(
                v.deep_view().take(i + 1),
            ));
        }
        i = i + 1;
    }
    proof {
        assert(v.deep_view().take(n as int) =~= v.deep_view());
        assert(out@ =~= old(out)@ + spec_enc_strs(v.deep_view()));
    }
}

/// Parses the `n` elements of a list body.
fn parse_strs_body(s: &Vec<char>, pos: usize, n: u64) -> (r: Option<(Vec<String>, usize)>)
    requires
        pos <= s@.len(),
    ensures
        match r {
            Some(p) => pos <= p.1 <= s@.len(),
            None => true,
        },
        forall|v: Seq<Seq<char>>, rest: Seq<char>|
            #![trigger spec_enc_strs_body(v).add(rest)]
            (true && v.len() == n && tail(s@, pos as int) == spec_enc_strs_body(v).add(rest))
                ==> match r {
                Some(p) => p.0.deep_view() == v && p.1 == pos + spec_enc_strs_body(v).len(),
                None => false,
            },
    decreases n,
{
    if n == 0 {
        let out: Vec<String> = Vec::new();
        proof {
            assert forall|v: Seq<Seq<char>>, rest: Seq<char>|
                #![trigger spec_enc_strs_body(v).add(rest)]
                (true && v.len() == n && tail(s@, pos as int) == spec_enc_strs_body(v).add(
                    rest,
                )) implies out.deep_view() == v && pos == pos + spec_enc_strs_body(v).len() by {
                assert(out.deep_view() =~= v);
            }
        }
        return Some((out, pos));
    }
    proof {
        assert forall|v: Seq<Seq<char>>, rest: Seq<char>|
            #![trigger spec_enc_strs_body(v).add(rest)]
            (true && v.len() == n && tail(s@, pos as int) == spec_enc_strs_body(v).add(rest))
            implies ({
            &&& tail(s@, pos as int) == spec_enc_str(v[0]).add(
                spec_enc_strs_body(v.drop_first()).add(rest),
            )
            &&& tail(s@, pos as int + spec_enc_str(v[0]).len() as int) == spec_enc_strs_body(
                v.drop_first(),
            ).add(rest)
            &&& spec_enc_strs_body(v).len() == spec_enc_str(v[0]).len() + spec_enc_strs_body(
                v.drop_first(),
            ).len()
            &&& true
            &&& true
        }) by {
            assert(spec_enc_strs_body(v).add(rest) =~= spec_enc_str(v[0]).add(
                spec_enc_strs_body(v.drop_first()).add(rest),
            ));
            lemma_tail_split(
                s@,
                pos as int,
                spec_enc_str(v[0]),
                spec_enc_strs_body(v.drop_first()).add(rest),
            );
            
        }
    }
    let (head, p1) = match parse_string(s, pos) {
        Some(p) => p,
        None => {
            return None;
        },
    };
    let (mut rest_vec, p2) = match parse_strs_body(s, p1, n - 1) {
        Some(p) => p,
        None => {
            return None;
        },
    };
    let ghost rv_shallow = rest_vec@;
    let ghost rv_deep = rest_vec.deep_view();
    let mut out: Vec<String> = Vec::new();
    out.push(head);
    out.append(&mut rest_vec);
    proof {
        assert forall|v: Seq<Seq<char>>, rest: Seq<char>|
            #![trigger spec_enc_strs_body(v).add(rest)]
            (true && v.len() == n && tail(s@, pos as int) == spec_enc_strs_body(v).add(rest))
            implies out.deep_view() == v && p2 == pos + spec_enc_strs_body(v).len() by {
            assert(rv_deep == v.drop_first());
            assert(out@.len() == 1 + rv_shallow.len());
            assert forall|i: int| 0 <= i < out@.len() implies out.deep_view()[i] == v[i] by {
                if i == 0 {
                    assert(out@[0] == head);
                } else {
                    assert(out@[i] == rv_shallow[i - 1]);
                    assert(rv_deep[i - 1] == rv_shallow[i - 1].deep_view());
                    assert(v.drop_first()[i - 1] == v[i]);
                }
            }
            assert(out.deep_view() =~= v);
        }
    }
    Some((out, p2))
}

/// Parses `spec_enc_strs`.
fn parse_strs(s: &Vec<char>, pos: usize) -> (r: Option<(Vec<String>, usize)>)
    requires
        pos <= s@.len(),
    ensures
        match r {
            Some(p) => pos < p.1 <= s@.len(),
            None => true,
        },
        forall|v: Seq<Seq<char>>, rest: Seq<char>|
            #![trigger spec_enc_strs(v).add(rest)]
            (true && tail(s@, pos as int) == spec_enc_strs(v).add(rest)) ==> match r {
                Some(p) => p.0.deep_view() == v && p.1 == pos + spec_enc_strs(v).len(),
                None => false,
            },
{
    let len = s.len();
    proof {
        assert forall|v: Seq<Seq<char>>, rest: Seq<char>|
            #![trigger spec_enc_strs(v).add(rest)]
            tail(s@, pos as int) == spec_enc_strs(v).add(rest) implies ({
            &&& v.len() <= s@.len()
            &&& strs_len_u64(v) as nat == v.len()
            &&& tail(s@, pos as int) == digits(strs_len_u64(v) as nat).add(seq![';']).add(
                spec_enc_strs_body(v).add(rest),
            )
            &&& tail(s@, pos as int + digits(v.len()).len() + 1) == spec_enc_strs_body(v).add(
                rest,
            )
            &&& spec_enc_strs(v).len() == digits(v.len()).len() + 1 + spec_enc_strs_body(v).len()
        }) by {
            lemma_strs_body_len(v);
            assert(tail(s@, pos as int).len() == spec_enc_strs(v).len() + rest.len());
            let dv = digits(v.len());
            lemma_digits(v.len());
            assert(spec_enc_strs(v).add(rest) =~= dv.add(seq![';']).add(
                spec_enc_strs_body(v).add(rest),
            ));
            assert(dv.add(seq![';']).add(spec_enc_strs_body(v).add(rest)) =~= dv.add(seq![';']).add(
                spec_enc_strs_body(v),
            ).add(rest));
            lemma_tail_split(s@, pos as int, dv.add(seq![';']), spec_enc_strs_body(v).add(rest));
        }
    }
    let (n, mid) = match parse_number(s, pos, ';') {
        Some(p) => p,
        None => {
            return None;
        },
    };
    match parse_strs_body(s, mid, n) {
        Some(p) => Some(p),
        None => None,
    }
}

/// The list length as a `u64`; meaningful for any list that fits in
/// memory.
pub open spec fn strs_len_u64(v: Seq<Seq<char>>) -> u64 {
    v.len() as u64
}

/// The concatenated element encodings of a list, front first.
pub open spec fn spec_enc_exits_body(s: Seq<ExitModel>) -> Seq<char>
    decreases s.len(),
{
    if s.len() == 0 {
        Seq::empty()
    } else {
        spec_enc_exit(s[0]) + spec_enc_exits_body(s.drop_first())
    }
}

/// A list: its length, then the elements.
pub open spec fn spec_enc_exits(s: Seq<ExitModel>) -> Seq<char> {
    spec_enc_num(s.len()) + spec_enc_exits_body(s)
}

/// Appending an element appends its encoding.
proof fn lemma_exits_body_push(s: Seq<ExitModel>, x: ExitModel)
    ensures
        spec_enc_exits_body(s.push(x)) == spec_enc_exits_body(s) + spec_enc_exit(x),
    decreases s.len(),
{
    if s.len() == 0 {
        assert(s.push(x).drop_first() =~= Seq::<ExitModel>::empty());
        assert(s.push(x)[0] == x);
        assert(s.push(x).len() == 1);
        assert(spec_enc_exits_body(s.push(x)) == spec_enc_exit(s.push(x)[0]) + spec_enc_exits_body(
            s.push(x).drop_first(),
        ));
        assert(spec_enc_exits_body(s.push(x).drop_first()) == Seq::<char>::empty());
        assert(spec_enc_exits_body(s) == Seq::<char>::empty());
        assert(spec_enc_exits_body(s.push(x)) =~= spec_enc_exits_body(s) + spec_enc_exit(x));
    } else {
        assert(s.push(x).drop_first() =~= s.drop_first().push(x));
        lemma_exits_body_push(s.drop_first(), x);
        assert(s.push(x)[0] == s[0]);
        assert(spec_enc_exits_body(s.push(x)) =~= spec_enc_exits_body(s) + spec_enc_exit(x));
    }
}

/// A list body is at least as long as the list.
proof fn lemma_exits_body_len(s: Seq<ExitModel>)
    ensures
        spec_enc_exits_body(s).len() >= s.len(),
    decreases s.len(),
{
    if s.len() > 0 {
        lemma_exits_body_len(s.drop_first());
        lemma_digits(0);
    }
}

/// Emits `spec_enc_exits` of the list's image.
fn push_exits(out: &mut Vec<char>, v: &Vec<Exit>)
    ensures
        final(out)@ == old(out)@ + spec_enc_exits(v.deep_view()),
{
    let n = v.len();
    push_num(out, n as u64);
    let mut i: usize = 0;
    while i < n
        invariant
            0 <= i <= n,
            n == v@.len(),
            out@ == old(out)@ + spec_enc_num(v.deep_view().len()) + spec_enc_exits_body(
                v.deep_view().take(i as int),
            ),
        decreases n - i,
    {
        push_exit(out, &v[i]);
        proof {
            assert(v.deep_view().take(i + 1) =~= v.deep_view().take(i as int).push(
                v.deep_view()[i as int],
            ));
            lemma_exits_body_push(v.deep_view().take(i as int), v.deep_view()[i as int]);
            assert(v[i as int]@ == v.deep_view()[i as int]);
            assert(out@ =~= old(out)@ + spec_enc_num(v.deep_view().len()) + spec_enc_exits_body(
                v.deep_view().take(i + 1),
            ));
        }
        i = i + 1;
    }
    proof {
        assert(v.deep_view().take(n as int) =~= v.deep_view());
        assert(out@ =~= old(out)@ + spec_enc_exits(v.deep_view()));
    }
}

/// Parses the `n` elements of a list body.
fn parse_exits_body(s: &Vec<char>, pos: usize, n: u64) -> (r: Option<(Vec<Exit>, usize)>)
    requires
        pos <= s@.len(),
    ensures
        match r {
            Some(p) => pos <= p.1 <= s@.len(),
            None => true,
        },
        forall|v: Seq<ExitModel>, rest: Seq<char>|
            #![trigger spec_enc_exits_body(v).add(rest)]
            (true && v.len() == n && tail(s@, pos as int) == spec_enc_exits_body(v).add(rest))
                ==> match r {
                Some(p) => p.0.deep_view() == v && p.1 == pos + spec_enc_exits_body(v).len(),
                None => false,
            },
    decreases n,
{
    if n == 0 {
        let out: Vec<Exit> = Vec::new();
        proof {
            assert forall|v: Seq<ExitModel>, rest: Seq<char>|
                #![trigger spec_enc_exits_body(v).add(rest)]
                (true && v.len() == n && tail(s@, pos as int) == spec_enc_exits_body(v).add(
                    rest,
                )) implies out.deep_view() == v && pos == pos + spec_enc_exits_body(v).len() by {
                assert(out.deep_view() =~= v);
            }
        }
        return Some((out, pos));
    }
    proof {
        assert forall|v: Seq<ExitModel>, rest: Seq<char>|
            #![trigger spec_enc_exits_body(v).add(rest)]
            (true && v.len() == n && tail(s@, pos as int) == spec_enc_exits_body(v).add(rest))
            implies ({
            &&& tail(s@, pos as int) == spec_enc_exit(v[0]).add(
                spec_enc_exits_body(v.drop_first()).add(rest),
            )
            &&& tail(s@, pos as int + spec_enc_exit(v[0]).len() as int) == spec_enc_exits_body(
                v.drop_first(),
            ).add(rest)
            &&& spec_enc_exits_body(v).len() == spec_enc_exit(v[0]).len() + spec_enc_exits_body(
                v.drop_first(),
            ).len()
            &&& true
            &&& true
        }) by {
            assert(spec_enc_exits_body(v).add(rest) =~= spec_enc_exit(v[0]).add(
                spec_enc_exits_body(v.drop_first()).add(rest),
            ));
            lemma_tail_split(
                s@,
                pos as int,
                spec_enc_exit(v[0]),
                spec_enc_exits_body(v.drop_first()).add(rest),
            );
            
        }
    }
    let (head, p1) = match parse_exit(s, pos) {
        Some(p) => p,
        None => {
            return None;
        },
    };
    let (mut rest_vec, p2) = match parse_exits_body(s, p1, n - 1) {
        Some(p) => p,
        None => {
            return None;
        },
    };
    let ghost rv_shallow = rest_vec@;
    let ghost rv_deep = rest_vec.deep_view();
    let mut out: Vec<Exit> = Vec::new();
    out.push(head);
    out.append(&mut rest_vec);
    proof {
        assert forall|v: Seq<ExitModel>, rest: Seq<char>|
            #![trigger spec_enc_exits_body(v).add(rest)]
            (true && v.len() == n && tail(s@, pos as int) == spec_enc_exits_body(v).add(rest))
            implies out.deep_view() == v && p2 == pos + spec_enc_exits_body(v).len() by {
            assert(rv_deep == v.drop_first());
            assert(out@.len() == 1 + rv_shallow.len());
            assert forall|i: int| 0 <= i < out@.len() implies out.deep_view()[i] == v[i] by {
                if i == 0 {
                    assert(out@[0] == head);
                } else {
                    assert(out@[i] == rv_shallow[i - 1]);
                    assert(rv_deep[i - 1] == rv_shallow[i - 1].deep_view());
                    assert(v.drop_first()[i - 1] == v[i]);
                }
            }
            assert(out.deep_view() =~= v);
        }
    }
    Some((out, p2))
}

/// Parses `spec_enc_exits`.
fn parse_exits(s: &Vec<char>, pos: usize) -> (r: Option<(Vec<Exit>, usize)>)
    requires
        pos <= s@.len(),
    ensures
        match r {
            Some(p) => pos < p.1 <= s@.len(),
            None => true,
        },
        forall|v: Seq<ExitModel>, rest: Seq<char>|
            #![trigger spec_enc_exits(v).add(rest)]
            (true && tail(s@, pos as int) == spec_enc_exits(v).add(rest)) ==> match r {
                Some(p) => p.0.deep_view() == v && p.1 == pos + spec_enc_exits(v).len(),
                None => false,
            },
{
    let len = s.len();
    proof {
        assert forall|v: Seq<ExitModel>, rest: Seq<char>|
            #![trigger spec_enc_exits(v).add(rest)]
            tail(s@, pos as int) == spec_enc_exits(v).add(rest) implies ({
            &&& v.len() <= s@.len()
            &&& exits_len_u64(v) as nat == v.len()
            &&& tail(s@, pos as int) == digits(exits_len_u64(v) as nat).add(seq![';']).add(
                spec_enc_exits_body(v).add(rest),
            )
            &&& tail(s@, pos as int + digits(v.len()).len() + 1) == spec_enc_exits_body(v).add(
                rest,
            )
            &&& spec_enc_exits(v).len() == digits(v.len()).len() + 1 + spec_enc_exits_body(v).len()
        }) by {
            lemma_exits_body_len(v);
            assert(tail(s@, pos as int).len() == spec_enc_exits(v).len() + rest.len());
            let dv = digits(v.len());
            lemma_digits(v.len());
            assert(spec_enc_exits(v).add(rest) =~= dv.add(seq![';']).add(
                spec_enc_exits_body(v).add(rest),
            ));
            assert(dv.add(seq![';']).add(spec_enc_exits_body(v).add(rest)) =~= dv.add(seq![';']).add(
                spec_enc_exits_body(v),
            ).add(rest));
            lemma_tail_split(s@, pos as int, dv.add(seq![';']), spec_enc_exits_body(v).add(rest));
        }
    }
    let (n, mid) = match parse_number(s, pos, ';') {
        Some(p) => p,
        None => {
            return None;
        },
    };
    match parse_exits_body(s, mid, n) {
        Some(p) => Some(p),
        None => None,
    }
}

/// The list length as a `u64`; meaningful for any list that fits in
/// memory.
pub open spec fn exits_len_u64(v: Seq<ExitModel>) -> u64 {
    v.len() as u64
}

/// A room whose items fit (true of every real [`Room`]).
pub open spec fn room_fits(v: RoomModel) -> bool {
    items_fit(v.items)
}

/// One room: id, description, items, exits, optional enemy.
pub open spec fn spec_enc_room(v: RoomModel) -> Seq<char> {
    spec_enc_str(v.id) + spec_enc_str(v.description) + spec_enc_items(v.items) + spec_enc_exits(
        v.exits,
    ) + spec_enc_opt_str(v.enemy)
}

/// Emits `spec_enc_room` of the room's image.
fn push_room(out: &mut Vec<char>, r: &Room)
    ensures
        final(out)@ == old(out)@ + spec_enc_room(r@),
{
    push_str_enc(out, r.id.as_str());
    push_str_enc(out, r.description.as_str());
    push_items(out, &r.items);
    push_exits(out, &r.exits);
    push_opt_str(out, &r.enemy);
    proof {
        assert(out@ =~= old(out)@ + spec_enc_room(r@));
    }
}

/// Room shape lemma: splits the premise into the field premises.
proof fn lemma_room_shape(s: Seq<char>, pos: int)
    requires
        0 <= pos <= s.len(),
    ensures
        forall|v: RoomModel, rest: Seq<char>|
            #![trigger spec_enc_room(v).add(rest)]
            tail(s, pos) == spec_enc_room(v).add(rest) ==> ({
                &&& tail(s, pos) == spec_enc_str(v.id).add(spec_enc_str(v.description).add(spec_enc_items(v.items).add(spec_enc_exits(v.exits).add(spec_enc_opt_str(v.enemy).add(rest)))))
                &&& tail(s, pos + spec_enc_str(v.id).len()) == spec_enc_str(v.description).add(spec_enc_items(v.items).add(spec_enc_exits(v.exits).add(spec_enc_opt_str(v.enemy).add(rest))))
                &&& tail(s, pos + spec_enc_str(v.id).len() + spec_enc_str(v.description).len()) == spec_enc_items(v.items).add(spec_enc_exits(v.exits).add(spec_enc_opt_str(v.enemy).add(rest)))
                &&& tail(s, pos + spec_enc_str(v.id).len() + spec_enc_str(v.description).len() + spec_enc_items(v.items).len()) == spec_enc_exits(v.exits).add(spec_enc_opt_str(v.enemy).add(rest))
                &&& tail(s, pos + spec_enc_str(v.id).len() + spec_enc_str(v.description).len() + spec_enc_items(v.items).len() + spec_enc_exits(v.exits).len()) == spec_enc_opt_str(v.enemy).add(rest)
                &&& spec_enc_room(v).len() == spec_enc_str(v.id).len() + spec_enc_str(v.description).len() + spec_enc_items(v.items).len() + spec_enc_exits(v.exits).len() + spec_enc_opt_str(v.enemy).len()
            }),
{
    assert forall|v: RoomModel, rest: Seq<char>|
        #![trigger spec_enc_room(v).add(rest)]
        tail(s, pos) == spec_enc_room(v).add(rest) implies ({
        &&& tail(s, pos) == spec_enc_str(v.id).add(spec_enc_str(v.description).add(spec_enc_items(v.items).add(spec_enc_exits(v.exits).add(spec_enc_opt_str(v.enemy).add(rest)))))
        &&& tail(s, pos + spec_enc_str(v.id).len()) == spec_enc_str(v.description).add(spec_enc_items(v.items).add(spec_enc_exits(v.exits).add(spec_enc_opt_str(v.enemy).add(rest))))
        &&& tail(s, pos + spec_enc_str(v.id).len() + spec_enc_str(v.description).len()) == spec_enc_items(v.items).add(spec_enc_exits(v.exits).add(spec_enc_opt_str(v.enemy).add(rest)))
        &&& tail(s, pos + spec_enc_str(v.id).len() + spec_enc_str(v.description).len() + spec_enc_items(v.items).len()) == spec_enc_exits(v.exits).add(spec_enc_opt_str(v.enemy).add(rest))
        &&& tail(s, pos + spec_enc_str(v.id).len() + spec_enc_str(v.description).len() + spec_enc_items(v.items).len() + spec_enc_exits(v.exits).len()) == spec_enc_opt_str(v.enemy).add(rest)
        &&& spec_enc_room(v).len() == spec_enc_str(v.id).len() + spec_enc_str(v.description).len() + spec_enc_items(v.items).len() + spec_enc_exits(v.exits).len() + spec_enc_opt_str(v.enemy).len()
    }) by {
        let e0 = spec_enc_str(v.id);
        let e1 = spec_enc_str(v.description);
        let e2 = spec_enc_items(v.items);
        let e3 = spec_enc_exits(v.exits);
        let e4 = spec_enc_opt_str(v.enemy);
        assert(spec_enc_room(v).add(rest) =~= e0.add(e1.add(e2.add(e3.add(e4.add(rest))))));
        lemma_tail_split(s, pos, e0, e1.add(e2.add(e3.add(e4.add(rest)))));
        lemma_tail_split(s, pos + e0.len(), e1, e2.add(e3.add(e4.add(rest))));
        lemma_tail_split(s, pos + e0.len() + e1.len(), e2, e3.add(e4.add(rest)));
        lemma_tail_split(s, pos + e0.len() + e1.len() + e2.len(), e3, e4.add(rest));

    }
}

/// Parses `spec_enc_room`.
fn parse_room(s: &Vec<char>, pos: usize) -> (r: Option<(Room, usize)>)
    requires
        pos <= s@.len(),
    ensures
        match r {
            Some(p) => pos < p.1 <= s@.len(),
            None => true,
        },
        forall|v: RoomModel, rest: Seq<char>|
            #![trigger spec_enc_room(v).add(rest)]
            (room_fits(v) && tail(s@, pos as int) == spec_enc_room(v).add(rest)) ==> match r {
                Some(p) => p.0@ == v && p.1 == pos + spec_enc_room(v).len(),
                None => false,
            },
{
    proof {
        lemma_room_shape(s@, pos as int);
    }
    let (id, p1) = match parse_string(s, pos) {
        Some(p) => p,
        None => {
            return None;
        },
    };
    let (description, p2) = match parse_string(s, p1) {
        Some(p) => p,
        None => {
            return None;
        },
    };
    let (items, p3) = match parse_items(s, p2) {
        Some(p) => p,
        None => {
            return None;
        },
    };
    let (exits, p4) = match parse_exits(s, p3) {
        Some(p) => p,
        None => {
            return None;
        },
    };
    let (enemy, p5) = match parse_opt_str(s, p4) {
        Some(p) => p,
        None => {
            return None;
        },
    };
    let room = Room { id, description, items, exits, enemy };
    proof {
        assert forall|v: RoomModel, rest: Seq<char>|
            #![trigger spec_enc_room(v).add(rest)]
            (room_fits(v) && tail(s@, pos as int) == spec_enc_room(v).add(rest)) implies room@ == v
            && p5 == pos + spec_enc_room(v).len() by {
            assert(room@ =~~= v);
        }
    }
    Some((room, p5))
}

/// Every room of a list fits.
pub open spec fn rooms_fit(s: Seq<RoomModel>) -> bool {
    forall|i: int| 0 <= i < s.len() ==> room_fits(#[trigger] s[i])
}

/// The concatenated room encodings of a list, front first.
pub open spec fn spec_enc_rooms_body(s: Seq<RoomModel>) -> Seq<char>
    decreases s.len(),
{
    if s.len() == 0 {
        Seq::empty()
    } else {
        spec_enc_room(s[0]) + spec_enc_rooms_body(s.drop_first())
    }
}

/// A room list: its length, then the rooms.
pub open spec fn spec_enc_rooms(s: Seq<RoomModel>) -> Seq<char> {
    spec_enc_num(s.len()) + spec_enc_rooms_body(s)
}

/// Appending a room appends its encoding.
proof fn lemma_rooms_body_push(s: Seq<RoomModel>, x: RoomModel)
    ensures
        spec_enc_rooms_body(s.push(x)) == spec_enc_rooms_body(s) + spec_enc_room(x),
    decreases s.len(),
{
    if s.len() == 0 {
        assert(s.push(x).drop_first() =~= Seq::<RoomModel>::empty());
        assert(s.push(x)[0] == x);
        assert(s.push(x).len() == 1);
        assert(spec_enc_rooms_body(s.push(x)) == spec_enc_room(s.push(x)[0]) + spec_enc_rooms_body(
            s.push(x).drop_first(),
        ));
        assert(spec_enc_rooms_body(s.push(x).drop_first()) == Seq::<char>::empty());
        assert(spec_enc_rooms_body(s) == Seq::<char>::empty());
        assert(spec_enc_rooms_body(s.push(x)) =~= spec_enc_rooms_body(s) + spec_enc_room(x));
    } else {
        assert(s.push(x).drop_first() =~= s.drop_first().push(x));
        lemma_rooms_body_push(s.drop_first(), x);
        assert(s.push(x)[0] == s[0]);
        assert(spec_enc_rooms_body(s.push(x)) =~= spec_enc_rooms_body(s) + spec_enc_room(x));
    }
}

/// A room-list body is at least as long as the list.
proof fn lemma_rooms_body_len(s: Seq<RoomModel>)
    ensures
        spec_enc_rooms_body(s).len() >= s.len(),
    decreases s.len(),
{
    if s.len() > 0 {
        lemma_rooms_body_len(s.drop_first());
        lemma_digits(0);
    }
}

/// Emits `spec_enc_rooms` of the list's image.
fn push_rooms(out: &mut Vec<char>, v: &Vec<Room>)
    ensures
        final(out)@ == old(out)@ + spec_enc_rooms(v.deep_view()),
{
    let n = v.len();
    push_num(out, n as u64);
    let mut i: usize = 0;
    while i < n
        invariant
            0 <= i <= n,
            n == v@.len(),
            out@ == old(out)@ + spec_enc_num(v.deep_view().len()) + spec_enc_rooms_body(
                v.deep_view().take(i as int),
            ),
        decreases n - i,
    {
        push_room(out, &v[i]);
        proof {
            assert(v.deep_view().take(i + 1) =~= v.deep_view().take(i as int).push(
                v.deep_view()[i as int],
            ));
            lemma_rooms_body_push(v.deep_view().take(i as int), v.deep_view()[i as int]);
            assert(v[i as int]@ == v.deep_view()[i as int]);
            assert(out@ =~= old(out)@ + spec_enc_num(v.deep_view().len()) + spec_enc_rooms_body(
                v.deep_view().take(i + 1),
            ));
        }
        i = i + 1;
    }
    proof {
        assert(v.deep_view().take(n as int) =~= v.deep_view());
        assert(out@ =~= old(out)@ + spec_enc_rooms(v.deep_view()));
    }
}

/// Parses the `n` rooms of a list body.
fn parse_rooms_body(s: &Vec<char>, pos: usize, n: u64) -> (r: Option<(Vec<Room>, usize)>)
    requires
        pos <= s@.len(),
    ensures
        match r {
            Some(p) => pos <= p.1 <= s@.len(),
            None => true,
        },
        forall|v: Seq<RoomModel>, rest: Seq<char>|
            #![trigger spec_enc_rooms_body(v).add(rest)]
            (rooms_fit(v) && v.len() == n && tail(s@, pos as int) == spec_enc_rooms_body(v).add(
                rest,
            )) ==> match r {
                Some(p) => p.0.deep_view() == v && p.1 == pos + spec_enc_rooms_body(v).len(),
                None => false,
            },
    decreases n,
{
    if n == 0 {
        let out: Vec<Room> = Vec::new();
        proof {
            assert forall|v: Seq<RoomModel>, rest: Seq<char>|
                #![trigger spec_enc_rooms_body(v).add(rest)]
                (rooms_fit(v) && v.len() == n && tail(s@, pos as int) == spec_enc_rooms_body(
                    v,
                ).add(rest)) implies out.deep_view() == v && pos == pos + spec_enc_rooms_body(
                v,
            ).len() by {
                assert(out.deep_view() =~= v);
            }
        }
        return Some((out, pos));
    }
    proof {
        assert forall|v: Seq<RoomModel>, rest: Seq<char>|
            #![trigger spec_enc_rooms_body(v).add(rest)]
            (rooms_fit(v) && v.len() == n && tail(s@, pos as int) == spec_enc_rooms_body(v).add(
                rest,
            )) implies ({
            &&& tail(s@, pos as int) == spec_enc_room(v[0]).add(
                spec_enc_rooms_body(v.drop_first()).add(rest),
            )
            &&& tail(s@, pos as int + spec_enc_room(v[0]).len() as int) == spec_enc_rooms_body(
                v.drop_first(),
            ).add(rest)
            &&& spec_enc_rooms_body(v).len() == spec_enc_room(v[0]).len() + spec_enc_rooms_body(
                v.drop_first(),
            ).len()
            &&& room_fits(v[0])
            &&& rooms_fit(v.drop_first())
        }) by {
            assert(spec_enc_rooms_body(v).add(rest) =~= spec_enc_room(v[0]).add(
                spec_enc_rooms_body(v.drop_first()).add(rest),
            ));
            lemma_tail_split(
                s@,
                pos as int,
                spec_enc_room(v[0]),
                spec_enc_rooms_body(v.drop_first()).add(rest),
            );
            assert forall|j: int| 0 <= j < v.drop_first().len() implies room_fits(
                #[trigger] v.drop_first()[j],
            ) by {
                assert(v.drop_first()[j] == v[j + 1]);
            }
        }
    }
    let (head, p1) = match parse_room(s, pos) {
        Some(p) => p,
        None => {
            return None;
        },
    };
    let (mut rest_vec, p2) = match parse_rooms_body(s, p1, n - 1) {
        Some(p) => p,
        None => {
            return None;
        },
    };
    let ghost rv_shallow = rest_vec@;
    let ghost rv_deep = rest_vec.deep_view();
    let mut out: Vec<Room> = Vec::new();
    out.push(head);
    out.append(&mut rest_vec);
    proof {
        assert forall|v: Seq<RoomModel>, rest: Seq<char>|
            #![trigger spec_enc_rooms_body(v).add(rest)]
            (rooms_fit(v) && v.len() == n && tail(s@, pos as int) == spec_enc_rooms_body(v).add(
                rest,
            )) implies out.deep_view() == v && p2 == pos + spec_enc_rooms_body(v).len() by {
            assert(rv_deep == v.drop_first());
            assert(out@.len() == 1 + rv_shallow.len());
            assert forall|i: int| 0 <= i < out@.len() implies out.deep_view()[i] == v[i] by {
                if i == 0 {
                    assert(out@[0] == head);
                } else {
                    assert(out@[i] == rv_shallow[i - 1]);
                    assert(rv_deep[i - 1] == rv_shallow[i - 1].deep_view());
                    assert(v.drop_first()[i - 1] == v[i]);
                }
            }
            assert(out.deep_view() =~= v);
        }
    }
    Some((out, p2))
}

/// Parses `spec_enc_rooms`.
fn parse_rooms(s: &Vec<char>, pos: usize) -> (r: Option<(Vec<Room>, usize)>)
    requires
        pos <= s@.len(),
    ensures
        match r {
            Some(p) => pos < p.1 <= s@.len(),
            None => true,
        },
        forall|v: Seq<RoomModel>, rest: Seq<char>|
            #![trigger spec_enc_rooms(v).add(rest)]
            (rooms_fit(v) && tail(s@, pos as int) == spec_enc_rooms(v).add(rest)) ==> match r {
                Some(p) => p.0.deep_view() == v && p.1 == pos + spec_enc_rooms(v).len(),
                None => false,
            },
{
    let len = s.len();
    proof {
        assert forall|v: Seq<RoomModel>, rest: Seq<char>|
            #![trigger spec_enc_rooms(v).add(rest)]
            tail(s@, pos as int) == spec_enc_rooms(v).add(rest) implies ({
            &&& v.len() <= s@.len()
            &&& rooms_len_u64(v) as nat == v.len()
            &&& tail(s@, pos as int) == digits(rooms_len_u64(v) as nat).add(seq![';']).add(
                spec_enc_rooms_body(v).add(rest),
            )
            &&& tail(s@, pos as int + digits(v.len()).len() + 1) == spec_enc_rooms_body(v).add(
                rest,
            )
            &&& spec_enc_rooms(v).len() == digits(v.len()).len() + 1 + spec_enc_rooms_body(v).len()
        }) by {
            lemma_rooms_body_len(v);
            assert(tail(s@, pos as int).len() == spec_enc_rooms(v).len() + rest.len());
            let dv = digits(v.len());
            lemma_digits(v.len());
            assert(spec_enc_rooms(v).add(rest) =~= dv.add(seq![';']).add(
                spec_enc_rooms_body(v).add(rest),
            ));
            assert(dv.add(seq![';']).add(spec_enc_rooms_body(v).add(rest)) =~= dv.add(
                seq![';'],
            ).add(spec_enc_rooms_body(v)).add(rest));
            lemma_tail_split(s@, pos as int, dv.add(seq![';']), spec_enc_rooms_body(v).add(rest));
        }
    }
    let (n, mid) = match parse_number(s, pos, ';') {
        Some(p) => p,
        None => {
            return None;
        },
    };
    match parse_rooms_body(s, mid, n) {
        Some(p) => Some(p),
        None => None,
    }
}

/// The room-list length as a `u64`; meaningful for any list that fits in
/// memory.
pub open spec fn rooms_len_u64(v: Seq<RoomModel>) -> u64 {
    v.len() as u64
}

/// A player image whose numbers fit their machine words (true of every
/// real [`Player`]).
pub open spec fn player_fits(v: PlayerModel) -> bool {
    &&& i32_fits(v.health)
    &&& i32_fits(v.max_health)
    &&& i32_fits(v.mana)
    &&& i32_fits(v.max_mana)
    &&& i32_fits(v.xp)
    &&& i32_fits(v.level)
    &&& i32_fits(v.base_attack)
    &&& 0 <= v.current_level <= usize::MAX as int
    &&& items_fit(v.inventory)
}

/// The level index as a `u64`.
pub open spec fn lvl_u64(v: int) -> u64 {
    v as u64
}

/// The player's name and seven numeric attributes.
pub open spec fn spec_enc_player_head(v: PlayerModel) -> Seq<char> {
    spec_enc_str(v.name)
        + spec_enc_i32(v.health)
        + spec_enc_i32(v.max_health)
        + spec_enc_i32(v.mana)
        + spec_enc_i32(v.max_mana)
        + spec_enc_i32(v.xp)
        + spec_enc_i32(v.level)
        + spec_enc_i32(v.base_attack)
}

/// The whole player: the head fields, then current room, inventory,
/// flags, and the world-level index.
pub open spec fn spec_enc_player(v: PlayerModel) -> Seq<char> {
    spec_enc_player_head(v)
        + spec_enc_str(v.current_room)
        + spec_enc_items(v.inventory)
        + spec_enc_strs(v.flags)
        + spec_enc_num(v.current_level as nat)
}

/// Emits `spec_enc_player` of the player's image.
#[verifier::rlimit(100)]
fn push_player(out: &mut Vec<char>, p: &Player)
    ensures
        final(out)@ == old(out)@ + spec_enc_player(p@),
{
    push_str_enc(out, p.name.as_str());
    push_i32(out, p.health);
    push_i32(out, p.max_health);
    push_i32(out, p.mana);
    push_i32(out, p.max_mana);
    push_i32(out, p.xp);
    push_i32(out, p.level);
    push_i32(out, p.base_attack);
    push_str_enc(out, p.current_room.as_str());
    push_items(out, &p.inventory);
    push_strs(out, &p.flags);
    push_num(out, p.current_level as u64);
    proof {
        assert(out@ =~= old(out)@ + spec_enc_player(p@));
    }
}


/// Concatenation associates.
proof fn lemma_add_assoc(a: Seq<char>, b: Seq<char>, c: Seq<char>)
    ensures
        (a + b).add(c) == a.add(b.add(c)),
{
    assert((a + b).add(c) =~= a.add(b.add(c)));
}

/// Splits a premise on `spec_enc_player_head` into its field premises.
#[verifier::rlimit(100)]
proof fn lemma_player_head_shape(s: Seq<char>, pos: int)
    requires
        0 <= pos <= s.len(),
    ensures
        forall|v: PlayerModel, rest: Seq<char>|
            #![trigger spec_enc_player_head(v).add(rest)]
            (tail(s, pos) == spec_enc_player_head(v).add(rest)) ==> ({
                &&& tail(s, pos) == spec_enc_str(v.name).add(spec_enc_i32(v.health).add(spec_enc_i32(v.max_health).add(spec_enc_i32(v.mana).add(spec_enc_i32(v.max_mana).add(spec_enc_i32(v.xp).add(spec_enc_i32(v.level).add(spec_enc_i32(v.base_attack).add(rest))))))))
                &&& tail(s, pos + spec_enc_str(v.name).len()) == spec_enc_i32(v.health).add(spec_enc_i32(v.max_health).add(spec_enc_i32(v.mana).add(spec_enc_i32(v.max_mana).add(spec_enc_i32(v.xp).add(spec_enc_i32(v.level).add(spec_enc_i32(v.base_attack).add(rest)))))))
                &&& tail(s, pos + spec_enc_str(v.name).len() + spec_enc_i32(v.health).len()) == spec_enc_i32(v.max_health).add(spec_enc_i32(v.mana).add(spec_enc_i32(v.max_mana).add(spec_enc_i32(v.xp).add(spec_enc_i32(v.level).add(spec_enc_i32(v.base_attack).add(rest))))))
                &&& tail(s, pos + spec_enc_str(v.name).len() + spec_enc_i32(v.health).len() + spec_enc_i32(v.max_health).len()) == spec_enc_i32(v.mana).add(spec_enc_i32(v.max_mana).add(spec_enc_i32(v.xp).add(spec_enc_i32(v.level).add(spec_enc_i32(v.base_attack).add(rest)))))
                &&& tail(s, pos + spec_enc_str(v.name).len() + spec_enc_i32(v.health).len() + spec_enc_i32(v.max_health).len() + spec_enc_i32(v.mana).len()) == spec_enc_i32(v.max_mana).add(spec_enc_i32(v.xp).add(spec_enc_i32(v.level).add(spec_enc_i32(v.base_attack).add(rest))))
                &&& tail(s, pos + spec_enc_str(v.name).len() + spec_enc_i32(v.health).len() + spec_enc_i32(v.max_health).len() + spec_enc_i32(v.mana).len() + spec_enc_i32(v.max_mana).len()) == spec_enc_i32(v.xp).add(spec_enc_i32(v.level).add(spec_enc_i32(v.base_attack).add(rest)))
                &&& tail(s, pos + spec_enc_str(v.name).len() + spec_enc_i32(v.health).len() + spec_enc_i32(v.max_health).len() + spec_enc_i32(v.mana).len() + spec_enc_i32(v.max_mana).len() + spec_enc_i32(v.xp).len()) == spec_enc_i32(v.level).add(spec_enc_i32(v.base_attack).add(rest))
                &&& tail(s, pos + spec_enc_str(v.name).len() + spec_enc_i32(v.health).len() + spec_enc_i32(v.max_health).len() + spec_enc_i32(v.mana).len() + spec_enc_i32(v.max_mana).len() + spec_enc_i32(v.xp).len() + spec_enc_i32(v.level).len()) == spec_enc_i32(v.base_attack).add(rest)
                &&& spec_enc_player_head(v).len() == spec_enc_str(v.name).len() + spec_enc_i32(v.health).len() + spec_enc_i32(v.max_health).len() + spec_enc_i32(v.mana).len() + spec_enc_i32(v.max_mana).len() + spec_enc_i32(v.xp).len() + spec_enc_i32(v.level).len() + spec_enc_i32(v.base_attack).len()
            }),
{
    assert forall|v: PlayerModel, rest: Seq<char>|
        #![trigger spec_enc_player_head(v).add(rest)]
        (tail(s, pos) == spec_enc_player_head(v).add(rest)) implies ({
        &&& tail(s, pos) == spec_enc_str(v.name).add(spec_enc_i32(v.health).add(spec_enc_i32(v.max_health).add(spec_enc_i32(v.mana).add(spec_enc_i32(v.max_mana).add(spec_enc_i32(v.xp).add(spec_enc_i32(v.level).add(spec_enc_i32(v.base_attack).add(rest))))))))
        &&& tail(s, pos + spec_enc_str(v.name).len()) == spec_enc_i32(v.health).add(spec_enc_i32(v.max_health).add(spec_enc_i32(v.mana).add(spec_enc_i32(v.max_mana).add(spec_enc_i32(v.xp).add(spec_enc_i32(v.level).add(spec_enc_i32(v.base_attack).add(rest)))))))
        &&& tail(s, pos + spec_enc_str(v.name).len() + spec_enc_i32(v.health).len()) == spec_enc_i32(v.max_health).add(spec_enc_i32(v.mana).add(spec_enc_i32(v.max_mana).add(spec_enc_i32(v.xp).add(spec_enc_i32(v.level).add(spec_enc_i32(v.base_attack).add(rest))))))
        &&& tail(s, pos + spec_enc_str(v.name).len() + spec_enc_i32(v.health).len() + spec_enc_i32(v.max_health).len()) == spec_enc_i32(v.mana).add(spec_enc_i32(v.max_mana).add(spec_enc_i32(v.xp).add(spec_enc_i32(v.level).add(spec_enc_i32(v.base_attack).add(rest)))))
        &&& tail(s, pos + spec_enc_str(v.name).len() + spec_enc_i32(v.health).len() + spec_enc_i32(v.max_health).len() + spec_enc_i32(v.mana).len()) == spec_enc_i32(v.max_mana).add(spec_enc_i32(v.xp).add(spec_enc_i32(v.level).add(spec_enc_i32(v.base_attack).add(rest))))
        &&& tail(s, pos + spec_enc_str(v.name).len() + spec_enc_i32(v.health).len() + spec_enc_i32(v.max_health).len() + spec_enc_i32(v.mana).len() + spec_enc_i32(v.max_mana).len()) == spec_enc_i32(v.xp).add(spec_enc_i32(v.level).add(spec_enc_i32(v.base_attack).add(rest)))
        &&& tail(s, pos + spec_enc_str(v.name).len() + spec_enc_i32(v.health).len() + spec_enc_i32(v.max_health).len() + spec_enc_i32(v.mana).len() + spec_enc_i32(v.max_mana).len() + spec_enc_i32(v.xp).len()) == spec_enc_i32(v.level).add(spec_enc_i32(v.base_attack).add(rest))
        &&& tail(s, pos + spec_enc_str(v.name).len() + spec_enc_i32(v.health).len() + spec_enc_i32(v.max_health).len() + spec_enc_i32(v.mana).len() + spec_enc_i32(v.max_mana).len() + spec_enc_i32(v.xp).len() + spec_enc_i32(v.level).len()) == spec_enc_i32(v.base_attack).add(rest)
        &&& spec_enc_player_head(v).len() == spec_enc_str(v.name).len() + spec_enc_i32(v.health).len() + spec_enc_i32(v.max_health).len() + spec_enc_i32(v.mana).len() + spec_enc_i32(v.max_mana).len() + spec_enc_i32(v.xp).len() + spec_enc_i32(v.level).len() + spec_enc_i32(v.base_attack).len()
    }) by {
        let e0 = spec_enc_str(v.name);
        let e1 = spec_enc_i32(v.health);
        let e2 = spec_enc_i32(v.max_health);
        let e3 = spec_enc_i32(v.mana);
        let e4 = spec_enc_i32(v.max_mana);
        let e5 = spec_enc_i32(v.xp);
        let e6 = spec_enc_i32(v.level);
        let e7 = spec_enc_i32(v.base_attack);
        lemma_add_assoc(e0 + e1 + e2 + e3 + e4 + e5 + e6, e7, rest);
        lemma_add_assoc(e0 + e1 + e2 + e3 + e4 + e5, e6, e7.add(rest));
        lemma_add_assoc(e0 + e1 + e2 + e3 + e4, e5, e6.add(e7.add(rest)));
        lemma_add_assoc(e0 + e1 + e2 + e3, e4, e5.add(e6.add(e7.add(rest))));
        lemma_add_assoc(e0 + e1 + e2, e3, e4.add(e5.add(e6.add(e7.add(rest)))));
        lemma_add_assoc(e0 + e1, e2, e3.add(e4.add(e5.add(e6.add(e7.add(rest))))));
        lemma_add_assoc(e0, e1, e2.add(e3.add(e4.add(e5.add(e6.add(e7.add(rest)))))));
        lemma_tail_split(s, pos, e0, e1.add(e2.add(e3.add(e4.add(e5.add(e6.add(e7.add(rest))))))));
        lemma_tail_split(s, pos + e0.len(), e1, e2.add(e3.add(e4.add(e5.add(e6.add(e7.add(rest)))))));
        lemma_tail_split(s, pos + e0.len() + e1.len(), e2, e3.add(e4.add(e5.add(e6.add(e7.add(rest))))));
        lemma_tail_split(s, pos + e0.len() + e1.len() + e2.len(), e3, e4.add(e5.add(e6.add(e7.add(rest)))));
        lemma_tail_split(s, pos + e0.len() + e1.len() + e2.len() + e3.len(), e4, e5.add(e6.add(e7.add(rest))));
        lemma_tail_split(s, pos + e0.len() + e1.len() + e2.len() + e3.len() + e4.len(), e5, e6.add(e7.add(rest)));
        lemma_tail_split(s, pos + e0.len() + e1.len() + e2.len() + e3.len() + e4.len() + e5.len(), e6, e7.add(rest));
    }
}
/// Splits a premise on `spec_enc_player` into its field premises.
#[verifier::rlimit(100)]
proof fn lemma_player_shape(s: Seq<char>, pos: int)
    requires
        0 <= pos <= s.len(),
    ensures
        forall|v: PlayerModel, rest: Seq<char>|
            #![trigger spec_enc_player(v).add(rest)]
            (player_fits(v) && tail(s, pos) == spec_enc_player(v).add(rest)) ==> ({
                &&& tail(s, pos) == spec_enc_player_head(v).add(spec_enc_str(v.current_room).add(spec_enc_items(v.inventory).add(spec_enc_strs(v.flags).add(spec_enc_num(v.current_level as nat).add(rest)))))
                &&& tail(s, pos + spec_enc_player_head(v).len()) == spec_enc_str(v.current_room).add(spec_enc_items(v.inventory).add(spec_enc_strs(v.flags).add(spec_enc_num(v.current_level as nat).add(rest))))
                &&& tail(s, pos + spec_enc_player_head(v).len() + spec_enc_str(v.current_room).len()) == spec_enc_items(v.inventory).add(spec_enc_strs(v.flags).add(spec_enc_num(v.current_level as nat).add(rest)))
                &&& tail(s, pos + spec_enc_player_head(v).len() + spec_enc_str(v.current_room).len() + spec_enc_items(v.inventory).len()) == spec_enc_strs(v.flags).add(spec_enc_num(v.current_level as nat).add(rest))
                &&& tail(s, pos + spec_enc_player_head(v).len() + spec_enc_str(v.current_room).len() + spec_enc_items(v.inventory).len() + spec_enc_strs(v.flags).len()) == spec_enc_num(v.current_level as nat).add(rest)
                &&& spec_enc_player(v).len() == spec_enc_player_head(v).len() + spec_enc_str(v.current_room).len() + spec_enc_items(v.inventory).len() + spec_enc_strs(v.flags).len() + spec_enc_num(v.current_level as nat).len()
                &&& tail(s, pos + spec_enc_player_head(v).len() + spec_enc_str(v.current_room).len() + spec_enc_items(v.inventory).len() + spec_enc_strs(v.flags).len()) == digits(lvl_u64(v.current_level) as nat).add(seq![';']).add(rest)
                &&& lvl_u64(v.current_level) as nat == v.current_level as nat
            }),
{
    assert forall|v: PlayerModel, rest: Seq<char>|
        #![trigger spec_enc_player(v).add(rest)]
        (player_fits(v) && tail(s, pos) == spec_enc_player(v).add(rest)) implies ({
        &&& tail(s, pos) == spec_enc_player_head(v).add(spec_enc_str(v.current_room).add(spec_enc_items(v.inventory).add(spec_enc_strs(v.flags).add(spec_enc_num(v.current_level as nat).add(rest)))))
        &&& tail(s, pos + spec_enc_player_head(v).len()) == spec_enc_str(v.current_room).add(spec_enc_items(v.inventory).add(spec_enc_strs(v.flags).add(spec_enc_num(v.current_level as nat).add(rest))))
        &&& tail(s, pos + spec_enc_player_head(v).len() + spec_enc_str(v.current_room).len()) == spec_enc_items(v.inventory).add(spec_enc_strs(v.flags).add(spec_enc_num(v.current_level as nat).add(rest)))
        &&& tail(s, pos + spec_enc_player_head(v).len() + spec_enc_str(v.current_room).len() + spec_enc_items(v.inventory).len()) == spec_enc_strs(v.flags).add(spec_enc_num(v.current_level as nat).add(rest))
        &&& tail(s, pos + spec_enc_player_head(v).len() + spec_enc_str(v.current_room).len() + spec_enc_items(v.inventory).len() + spec_enc_strs(v.flags).len()) == spec_enc_num(v.current_level as nat).add(rest)
        &&& spec_enc_player(v).len() == spec_enc_player_head(v).len() + spec_enc_str(v.current_room).len() + spec_enc_items(v.inventory).len() + spec_enc_strs(v.flags).len() + spec_enc_num(v.current_level as nat).len()
        &&& tail(s, pos + spec_enc_player_head(v).len() + spec_enc_str(v.current_room).len() + spec_enc_items(v.inventory).len() + spec_enc_strs(v.flags).len()) == digits(lvl_u64(v.current_level) as nat).add(seq![';']).add(rest)
        &&& lvl_u64(v.current_level) as nat == v.current_level as nat
    }) by {
        let e0 = spec_enc_player_head(v);
        let e1 = spec_enc_str(v.current_room);
        let e2 = spec_enc_items(v.inventory);
        let e3 = spec_enc_strs(v.flags);
        let e4 = spec_enc_num(v.current_level as nat);
        assert(spec_enc_player(v).add(rest) =~= e0.add(e1.add(e2.add(e3.add(e4.add(rest))))));
        lemma_tail_split(s, pos, e0, e1.add(e2.add(e3.add(e4.add(rest)))));
        lemma_tail_split(s, pos + e0.len(), e1, e2.add(e3.add(e4.add(rest))));
        lemma_tail_split(s, pos + e0.len() + e1.len(), e2, e3.add(e4.add(rest)));
        lemma_tail_split(s, pos + e0.len() + e1.len() + e2.len(), e3, e4.add(rest));
        assert(lvl_u64(v.current_level) as nat == v.current_level as nat);
        assert(e4.add(rest) =~= digits(lvl_u64(v.current_level) as nat).add(seq![';']).add(rest));
    }
}
/// Parses `spec_enc_player`.
fn parse_player(s: &Vec<char>, pos: usize) -> (r: Option<(Player, usize)>)
    requires
        pos <= s@.len(),
    ensures
        match r {
            Some(p) => pos < p.1 <= s@.len(),
            None => true,
        },
        forall|v: PlayerModel, rest: Seq<char>|
            #![trigger spec_enc_player(v).add(rest)]
            (player_fits(v) && tail(s@, pos as int) == spec_enc_player(v).add(rest)) ==> match r {
                Some(p) => p.0@ == v && p.1 == pos + spec_enc_player(v).len(),
                None => false,
            },
{
    proof {
        lemma_player_shape(s@, pos as int);
        lemma_player_head_shape(s@, pos as int);
    }
    let (name, p1) = match parse_string(s, pos) {
        Some(p) => p,
        None => {
            return None;
        },
    };
    let (health, p2) = match parse_i32(s, p1) {
        Some(p) => p,
        None => {
            return None;
        },
    };
    let (max_health, p3) = match parse_i32(s, p2) {
        Some(p) => p,
        None => {
            return None;
        },
    };
    let (mana, p4) = match parse_i32(s, p3) {
        Some(p) => p,
        None => {
            return None;
        },
    };
    let (max_mana, p5) = match parse_i32(s, p4) {
        Some(p) => p,
        None => {
            return None;
        },
    };
    let (xp, p6) = match parse_i32(s, p5) {
        Some(p) => p,
        None => {
            return None;
        },
    };
    let (level, p7) = match parse_i32(s, p6) {
        Some(p) => p,
        None => {
            return None;
        },
    };
    let (base_attack, p8) = match parse_i32(s, p7) {
        Some(p) => p,
        None => {
            return None;
        },
    };
    let (current_room, p9) = match parse_string(s, p8) {
        Some(p) => p,
        None => {
            return None;
        },
    };
    let (inventory, p10) = match parse_items(s, p9) {
        Some(p) => p,
        None => {
            return None;
        },
    };
    let (flags, p11) = match parse_strs(s, p10) {
        Some(p) => p,
        None => {
            return None;
        },
    };
    let (lvl, p12) = match parse_number(s, p11, ';') {
        Some(p) => p,
        None => {
            return None;
        },
    };
    if lvl > usize::MAX as u64 {
        return None;
    }
    let player = Player {
        name,
        health,
        max_health,
        mana,
        max_mana,
        xp,
        level,
        base_attack,
        current_room,
        inventory,
        flags,
        current_level: lvl as usize,
    };
    proof {
        assert forall|v: PlayerModel, rest: Seq<char>|
            #![trigger spec_enc_player(v).add(rest)]
            (player_fits(v) && tail(s@, pos as int) == spec_enc_player(v).add(rest))
            implies player@ == v && p12 == pos + spec_enc_player(v).len() by {
            assert(player@ =~~= v);
        }
    }
    Some((player, p12))
}

/// A world image whose rooms fit (true of every real [`World`]).
pub open spec fn world_fits(v: WorldModel) -> bool {
    rooms_fit(v.rooms)
}

/// The whole world: rooms, then cleared-room ids.
pub open spec fn spec_enc_world(v: WorldModel) -> Seq<char> {
    spec_enc_rooms(v.rooms) + spec_enc_strs(v.cleared)
}

/// Emits `spec_enc_world` of the world's image.
fn push_world(out: &mut Vec<char>, w: &World)
    ensures
        final(out)@ == old(out)@ + spec_enc_world(w@),
{
    push_rooms(out, &w.rooms);
    push_strs(out, &w.cleared_rooms);
    proof {
        assert(out@ =~= old(out)@ + spec_enc_world(w@));
    }
}

/// Splits a world premise into its field premises.
proof fn lemma_world_shape(s: Seq<char>, pos: int)
    requires
        0 <= pos <= s.len(),
    ensures
        forall|v: WorldModel, rest: Seq<char>|
            #![trigger spec_enc_world(v).add(rest)]
            (tail(s, pos) == spec_enc_world(v).add(rest)) ==> ({
                &&& tail(s, pos) == spec_enc_rooms(v.rooms).add(spec_enc_strs(v.cleared).add(rest))
                &&& tail(s, pos + spec_enc_rooms(v.rooms).len()) == spec_enc_strs(v.cleared).add(rest)
                &&& spec_enc_world(v).len() == spec_enc_rooms(v.rooms).len() + spec_enc_strs(v.cleared).len()
            }),
{
    assert forall|v: WorldModel, rest: Seq<char>|
        #![trigger spec_enc_world(v).add(rest)]
        (tail(s, pos) == spec_enc_world(v).add(rest)) implies ({
        &&& tail(s, pos) == spec_enc_rooms(v.rooms).add(spec_enc_strs(v.cleared).add(rest))
        &&& tail(s, pos + spec_enc_rooms(v.rooms).len()) == spec_enc_strs(v.cleared).add(rest)
        &&& spec_enc_world(v).len() == spec_enc_rooms(v.rooms).len() + spec_enc_strs(v.cleared).len()
    }) by {
        let e0 = spec_enc_rooms(v.rooms);
        let e1 = spec_enc_strs(v.cleared);
        assert(spec_enc_world(v).add(rest) =~= e0.add(e1.add(rest)));
        lemma_tail_split(s, pos, e0, e1.add(rest));

    }
}

/// Parses `spec_enc_world`.
fn parse_world(s: &Vec<char>, pos: usize) -> (r: Option<(World, usize)>)
    requires
        pos <= s@.len(),
    ensures
        match r {
            Some(p) => pos < p.1 <= s@.len(),
            None => true,
        },
        forall|v: WorldModel, rest: Seq<char>|
            #![trigger spec_enc_world(v).add(rest)]
            (world_fits(v) && tail(s@, pos as int) == spec_enc_world(v).add(rest)) ==> match r {
                Some(p) => p.0@ == v && p.1 == pos + spec_enc_world(v).len(),
                None => false,
            },
{
    proof {
        lemma_world_shape(s@, pos as int);
    }
    let (rooms, p1) = match parse_rooms(s, pos) {
        Some(p) => p,
        None => {
            return None;
        },
    };
    let (cleared_rooms, p2) = match parse_strs(s, p1) {
        Some(p) => p,
        None => {
            return None;
        },
    };
    let world = World { rooms, cleared_rooms };
    proof {
        assert forall|v: WorldModel, rest: Seq<char>|
            #![trigger spec_enc_world(v).add(rest)]
            (world_fits(v) && tail(s@, pos as int) == spec_enc_world(v).add(rest)) implies world@
            == v && p2 == pos + spec_enc_world(v).len() by {
            assert(world@ =~~= v);
        }
    }
    Some((world, p2))
}

/// One save document: the player, then the world.
pub open spec fn spec_enc_save(p: PlayerModel, w: WorldModel) -> Seq<char> {
    spec_enc_player(p) + spec_enc_world(w)
}

/// Frames the player and world into the save document.
pub fn encode_save(player: &Player, world: &World) -> (out: Vec<char>)
    ensures
        out@ == spec_enc_save(player@, world@),
{
    let mut out: Vec<char> = Vec::new();
    push_player(&mut out, player);
    push_world(&mut out, world);
    proof {
        assert(out@ =~= spec_enc_save(player@, world@));
    }
    out
}

/// Parses a save document back into a player and world. Whatever
/// [`encode_save`] produced comes back exactly; a document it could not
/// have produced may be rejected with `None`, never misread.
pub fn decode_save(s: &Vec<char>) -> (r: Option<(Player, World)>)
    ensures
        forall|pm: PlayerModel, wm: WorldModel| #![trigger spec_enc_save(pm, wm)]
            (player_fits(pm) && world_fits(wm) && s@ == spec_enc_save(pm, wm)) ==> match r {
                Some(p) => p.0@ == pm && p.1@ == wm,
                None => false,
            },
        r matches Some(p) ==> s@ == spec_enc_save(p.0@, p.1@),
{
    let len = s.len();
    proof {
        assert forall|pm: PlayerModel, wm: WorldModel| #![trigger spec_enc_save(pm, wm)]
            (player_fits(pm) && world_fits(wm) && s@ == spec_enc_save(pm, wm)) implies ({
            &&& tail(s@, 0) == spec_enc_player(pm).add(spec_enc_world(wm).add(Seq::empty()))
            &&& tail(s@, spec_enc_player(pm).len() as int) == spec_enc_world(wm).add(Seq::empty())
            &&& s@.len() == spec_enc_player(pm).len() + spec_enc_world(wm).len()
        }) by {
            assert(tail(s@, 0) =~= s@);
            assert(spec_enc_save(pm, wm) =~= spec_enc_player(pm).add(
                spec_enc_world(wm).add(Seq::empty()),
            ));
            lemma_tail_split(s@, 0, spec_enc_player(pm), spec_enc_world(wm).add(Seq::empty()));
        }
    }
    let (player, p1) = match parse_player(s, 0) {
        Some(p) => p,
        None => {
            return None;
        },
    };
    let (world, p2) = match parse_world(s, p1) {
        Some(p) => p,
        None => {
            return None;
        },
    };
    if p2 != len {
        return None;
    }
    // The grammar is not canonical (leading zeros parse); re-encoding the
    // parsed value and comparing settles that this document is exactly its
    // encoding, so nothing that no save produced is ever accepted.
    let re = encode_save(&player, &world);
    if !chars_equal(&re, s) {
        return None;
    }
    Some((player, world))
}

/// Exact equality of two character vectors.
fn chars_equal(a: &Vec<char>, b: &Vec<char>) -> (r: bool)
    ensures
        r == (a@ == b@),
{
    if a.len() != b.len() {
        return false;
    }
    let n = a.len();
    let mut i: usize = 0;
    while i < n
        invariant
            0 <= i <= n,
            n == a@.len(),
            a@.len() == b@.len(),
            forall|j: int| 0 <= j < i ==> a@[j] == b@[j],
        decreases n - i,
    {
        if a[i] != b[i] {
            return false;
        }
        i = i + 1;
    }
    proof {
        assert(a@ =~= b@);
    }
    true
}

/// The persisted unit: one player and one world, saved and restored
/// wholesale.
pub struct SaveData {
    pub player: Player,
    pub world: World,
}

impl SaveData {
    /// Frames this save into its document.
    pub fn encode(&self) -> (out: Vec<char>)
        ensures
            out@ == spec_enc_save(self.player@, self.world@),
    {
        encode_save(&self.player, &self.world)
    }

    /// Parses a save document; whatever [`SaveData::encode`] produced
    /// comes back exactly.
    pub fn decode(s: &Vec<char>) -> (r: Option<SaveData>)
        ensures
            forall|pm: PlayerModel, wm: WorldModel| #![trigger spec_enc_save(pm, wm)]
                (player_fits(pm) && world_fits(wm) && s@ == spec_enc_save(pm, wm)) ==> match r {
                    Some(sd) => sd.player@ == pm && sd.world@ == wm,
                    None => false,
                },
            r matches Some(sd) ==> s@ == spec_enc_save(sd.player@, sd.world@),
    {
        match decode_save(s) {
            Some((player, world)) => Some(SaveData { player, world }),
            None => None,
        }
    }
}

/// Saving then immediately loading reproduces the player and the world,
/// field for field.
pub fn save_load_round_trip(player: &Player, world: &World) -> (r: Option<(Player, World)>)
    ensures
        match r {
            Some(p) => p.0@ == player@ && p.1@ == world@,
            None => false,
        },
{
    let encoded = encode_save(player, world);
    proof {
        assert(player_fits(player@)) by {
            assert forall|i: int| 0 <= i < player@.inventory.len() implies item_fits(
                #[trigger] player@.inventory[i],
            ) by {
                assert(player@.inventory[i] == player.inventory[i as int]@);
            }
        }
        assert(world_fits(world@)) by {
            assert forall|i: int| 0 <= i < world@.rooms.len() implies room_fits(
                #[trigger] world@.rooms[i],
            ) by {
                assert(world@.rooms[i] == world.rooms[i as int]@);
                assert forall|j: int| 0 <= j < world@.rooms[i].items.len() implies item_fits(
                    #[trigger] world@.rooms[i].items[j],
                ) by {
                    assert(world@.rooms[i].items[j] == world.rooms[i as int].items[j]@);
                }
            }
        }
        assert(spec_enc_save(player@, world@) == encoded@);
    }
    decode_save(&encoded)
}
} // verus!

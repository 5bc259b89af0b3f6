//! Names of segment files: a base offset written as twenty decimal digits,
//! followed by `.log`, under the directory of its partition.

use vstd::prelude::*;
use vstd::slice::*;
use vstd::string::*;
use crate::Offset;

verus! {

/// Number of decimal digits in the name of a segment file.
pub const NAME_DIGITS: u32 = 20;

/// ASCII code of `+`.
pub const PLUS: u8 = 43;

/// ASCII code of `.`.
pub const DOT: u8 = 46;

/// ASCII code of `0`.
pub const ZERO: u8 = 48;

/// The character that stands for the decimal digit `d`.
pub open spec fn digit_char(d: nat) -> char {
    if d == 0 {
        '0'
    } else if d == 1 {
        '1'
    } else if d == 2 {
        '2'
    } else if d == 3 {
        '3'
    } else if d == 4 {
        '4'
    } else if d == 5 {
        '5'
    } else if d == 6 {
        '6'
    } else if d == 7 {
        '7'
    } else if d == 8 {
        '8'
    } else {
        '9'
    }
}

/// The last `width` decimal digits of `n`, most significant first.
pub open spec fn zero_padded(n: nat, width: nat) -> Seq<char>
    decreases width,
{
    if width == 0 {
        Seq::empty()
    } else {
        zero_padded(n / 10, (width - 1) as nat).push(digit_char(n % 10))
    }
}

/// The decimal digits of `n` without padding.
pub open spec fn decimal(n: nat) -> Seq<char>
    decreases n,
{
    if n < 10 {
        seq![digit_char(n)]
    } else {
        decimal(n / 10).push(digit_char(n % 10))
    }
}

/// The extension of a segment file, dot included.
pub open spec fn log_suffix() -> Seq<char> {
    seq!['.', 'l', 'o', 'g']
}

/// The file name of the segment that starts at `base_offset`.
pub open spec fn spec_segment_file_name(base_offset: Offset) -> Seq<char> {
    zero_padded(base_offset as nat, NAME_DIGITS as nat) + log_suffix()
}

/// The path of the segment that starts at `base_offset` under `dir`.
pub open spec fn spec_log_filename(dir: Seq<char>, base_offset: Offset) -> Seq<char> {
    dir + seq!['/'] + spec_segment_file_name(base_offset)
}

/// The directory of partition `partition` of `topic`.
pub open spec fn spec_partition_path(topic: Seq<char>, partition: u32) -> Seq<char> {
    topic + seq!['/'] + decimal(partition as nat)
}

fn digit_str(d: u64) -> (s: &'static str)
    requires
        d < 10,
    ensures
        s@ == seq![digit_char(d as nat)],
{
    proof {
        reveal_strlit("0");
        reveal_strlit("1");
        reveal_strlit("2");
        reveal_strlit("3");
        reveal_strlit("4");
        reveal_strlit("5");
        reveal_strlit("6");
        reveal_strlit("7");
        reveal_strlit("8");
        reveal_strlit("9");
    }
    let s = if d == 0 {
        "0"
    } else if d == 1 {
        "1"
    } else if d == 2 {
        "2"
    } else if d == 3 {
        "3"
    } else if d == 4 {
        "4"
    } else if d == 5 {
        "5"
    } else if d == 6 {
        "6"
    } else if d == 7 {
        "7"
    } else if d == 8 {
        "8"
    } else {
        "9"
    };
    assert(s@ =~= seq![digit_char(d as nat)]);
    s
}

fn push_zero_padded(s: &mut String, n: u64, width: u32)
    ensures
        final(s)@ == old(s)@ + zero_padded(n as nat, width as nat),
    decreases width,
{
    if width > 0 {
        push_zero_padded(s, n / 10, width - 1);
        s.append(digit_str(n % 10));
        assert(s@ =~= old(s)@ + zero_padded(n as nat, width as nat));
    } else {
        assert(s@ =~= old(s)@ + zero_padded(n as nat, width as nat));
    }
}

fn push_decimal(s: &mut String, n: u64)
    ensures
        final(s)@ == old(s)@ + decimal(n as nat),
    decreases n,
{
    if n < 10 {
        s.append(digit_str(n));
    } else {
        push_decimal(s, n / 10);
        s.append(digit_str(n % 10));
    }
    assert(s@ =~= old(s)@ + decimal(n as nat));
}

/// The file name of the segment that starts at `base_offset`: twenty digits
/// and `.log`.
pub fn segment_file_name(base_offset: Offset) -> (name: String)
    ensures
        name@ == spec_segment_file_name(base_offset),
{
    let mut name = String::new();
    push_zero_padded(&mut name, base_offset, NAME_DIGITS);
    proof {
        reveal_strlit(".log");
    }
    name.append(".log");
    assert(name@ =~= spec_segment_file_name(base_offset));
    name
}

/// The path of the segment that starts at `base_offset` in the directory
/// `topic`.
pub fn log_filename(topic: &String, base_offset: Offset) -> (path: String)
    ensures
        path@ == spec_log_filename(topic@, base_offset),
{
    let mut path = topic.clone();
    proof {
        reveal_strlit("/");
        reveal_strlit(".log");
    }
    path.append("/");
    push_zero_padded(&mut path, base_offset, NAME_DIGITS);
    path.append(".log");
    assert(path@ =~= spec_log_filename(topic@, base_offset));
    path
}

/// The directory that holds the segments of partition `partition` of `topic`.
pub fn partition_path(topic: &String, partition: u32) -> (path: String)
    ensures
        path@ == spec_partition_path(topic@, partition),
{
    let mut path = topic.clone();
    proof {
        reveal_strlit("/");
    }
    path.append("/");
    push_decimal(&mut path, partition as u64);
    assert(path@ =~= spec_partition_path(topic@, partition));
    path
}

/// Whether `b` is an ASCII decimal digit.
pub open spec fn is_digit(b: u8) -> bool {
    ZERO <= b <= ZERO + 9
}

/// Whether every byte of `s` is a decimal digit.
pub open spec fn all_digits(s: Seq<u8>) -> bool {
    forall|i: int| 0 <= i < s.len() ==> is_digit(#[trigger] s[i])
}

/// The number that the decimal digits `s` stand for.
pub open spec fn digits_value(s: Seq<u8>) -> nat
    decreases s.len(),
{
    if s.len() == 0 {
        0
    } else {
        digits_value(s.drop_last()) * 10 + (s.last() - ZERO) as nat
    }
}

/// Index of the last `.` in `name`, or -1 where it holds none.
pub open spec fn last_dot(name: Seq<u8>) -> int
    decreases name.len(),
{
    if name.len() == 0 {
        -1
    } else if name.last() == DOT {
        name.len() - 1
    } else {
        last_dot(name.drop_last())
    }
}

/// The stem of a file name: what stands before its last `.`; the whole name
/// where it holds no `.` or only a leading one.
pub open spec fn spec_file_stem(name: Seq<u8>) -> Seq<u8> {
    if last_dot(name) <= 0 {
        name
    } else {
        name.take(last_dot(name))
    }
}

/// The digits of a stem: the stem without one leading `+`.
pub open spec fn stem_digits(stem: Seq<u8>) -> Seq<u8> {
    if stem.len() > 0 && stem[0] == PLUS {
        stem.skip(1)
    } else {
        stem
    }
}

/// The offset that a stem stands for: an optional `+`, then one or more
/// decimal digits whose value fits an offset.
pub open spec fn spec_parse_offset(stem: Seq<u8>) -> Option<Offset> {
    let digits = stem_digits(stem);
    if digits.len() > 0 && all_digits(digits) && digits_value(digits) <= Offset::MAX {
        Some(digits_value(digits) as Offset)
    } else {
        None
    }
}

/// The base offset that the file name `name` stands for, if any.
pub open spec fn spec_segment_offset(name: Seq<u8>) -> Option<Offset> {
    spec_parse_offset(spec_file_stem(name))
}

/// A longer run of digits stands for no smaller a number than its prefix.
proof fn lemma_digits_value_prefix(s: Seq<u8>, k: int)
    requires
        0 <= k <= s.len(),
    ensures
        digits_value(s.take(k)) <= digits_value(s),
    decreases s.len(),
{
    if k == s.len() {
        assert(s.take(k) =~= s);
    } else {
        assert(s.drop_last().take(k) =~= s.take(k));
        lemma_digits_value_prefix(s.drop_last(), k);
        assert(digits_value(s.drop_last()) * 10 >= digits_value(s.drop_last())) by (nonlinear_arith);
    }
}

/// The length of the stem of `name`.
pub fn file_stem_len(name: &[u8]) -> (len: usize)
    ensures
        len <= name@.len(),
        name@.take(len as int) == spec_file_stem(name@),
{
    let mut i: usize = name.len();
    assert(name@.take(i as int) =~= name@);
    while i > 0
        invariant
            i <= name@.len(),
            last_dot(name@) == last_dot(name@.take(i as int)),
        decreases i,
    {
        proof {
            let t = name@.take(i as int);
            assert(t.drop_last() =~= name@.take(i - 1));
            assert(t.last() == name@[i - 1]);
        }
        if name[i - 1] == DOT {
            if i - 1 == 0 {
                assert(name@.take(name@.len() as int) =~= name@);
                return name.len();
            }
            return i - 1;
        }
        i = i - 1;
    }
    assert(name@.take(0).len() == 0);
    assert(name@.take(name@.len() as int) =~= name@);
    name.len()
}

/// Reads a stem as an offset: an optional `+`, then decimal digits.
pub fn parse_offset(stem: &[u8]) -> (r: Option<Offset>)
    ensures
        r == spec_parse_offset(stem@),
{
    let start: usize = if stem.len() > 0 && stem[0] == PLUS {
        1
    } else {
        0
    };
    let ghost digits = stem_digits(stem@);
    assert(digits =~= stem@.skip(start as int));
    if start == stem.len() {
        return None;
    }
    let mut value: u64 = 0;
    let mut i: usize = start;
    while i < stem.len()
        invariant
            start <= i <= stem@.len(),
            digits == stem_digits(stem@),
            digits == stem@.skip(start as int),
            all_digits(digits.take(i - start)),
            value == digits_value(digits.take(i - start)),
        decreases stem@.len() - i,
    {
        let b = stem[i];
        let ghost next = digits.take(i - start + 1);
        proof {
            assert(next.drop_last() =~= digits.take(i - start));
            assert(next.last() == b);
        }
        if b < ZERO || b > ZERO + 9 {
            assert(!is_digit(digits[i - start]));
            return None;
        }
        let d: u64 = (b - ZERO) as u64;
        if value > (u64::MAX - d) / 10 {
            proof {
                lemma_digits_value_prefix(digits, i - start + 1);
            }
            return None;
        }
        value = value * 10 + d;
        i = i + 1;
        assert(all_digits(next)) by {
            assert forall|j: int| 0 <= j < next.len() implies is_digit(#[trigger] next[j]) by {
                if j < next.len() - 1 {
                    assert(next[j] == digits.take(i - 1 - start)[j]);
                }
            }
        }
    }
    assert(digits.take(i - start) =~= digits);
    Some(value)
}

/// The base offset that a segment file's name stands for: the stem of the
/// name, read as an offset.
pub fn segment_offset(name: &[u8]) -> (r: Option<Offset>)
    ensures
        r == spec_segment_offset(name@),
{
    let len = file_stem_len(name);
    let stem = slice_subrange(name, 0, len);
    assert(stem@ =~= name@.take(len as int));
    parse_offset(stem)
}

/// The last `width` decimal digits of `n` as ASCII bytes, most significant
/// first.
pub open spec fn zero_padded_bytes(n: nat, width: nat) -> Seq<u8>
    decreases width,
{
    if width == 0 {
        Seq::empty()
    } else {
        zero_padded_bytes(n / 10, (width - 1) as nat).push((ZERO + n % 10) as u8)
    }
}

/// The bytes of `.log`.
pub open spec fn log_suffix_bytes() -> Seq<u8> {
    seq![DOT, 108u8, 111u8, 103u8]
}

/// The bytes of the file name of the segment that starts at `base_offset`.
pub open spec fn spec_segment_name_bytes(base_offset: Offset) -> Seq<u8> {
    zero_padded_bytes(base_offset as nat, NAME_DIGITS as nat) + log_suffix_bytes()
}

/// Ten to the power of `e`.
pub open spec fn pow10(e: nat) -> nat
    decreases e,
{
    if e == 0 {
        1
    } else {
        10 * pow10((e - 1) as nat)
    }
}

fn push_zero_padded_bytes(bytes: &mut Vec<u8>, n: u64, width: u32)
    ensures
        final(bytes)@ == old(bytes)@ + zero_padded_bytes(n as nat, width as nat),
    decreases width,
{
    if width > 0 {
        push_zero_padded_bytes(bytes, n / 10, width - 1);
        bytes.push(ZERO + (n % 10) as u8);
    }
    assert(bytes@ =~= old(bytes)@ + zero_padded_bytes(n as nat, width as nat));
}

/// The bytes of the file name of the segment that starts at `base_offset`.
pub fn segment_name_bytes(base_offset: Offset) -> (name: Vec<u8>)
    ensures
        name@ == spec_segment_name_bytes(base_offset),
{
    let mut name: Vec<u8> = Vec::new();
    push_zero_padded_bytes(&mut name, base_offset, NAME_DIGITS);
    name.push(DOT);
    name.push(108u8);
    name.push(111u8);
    name.push(103u8);
    assert(name@ =~= spec_segment_name_bytes(base_offset));
    name
}

/// Zero-padded digits are `width` digits that stand for `n`, where `n` has no
/// more than `width` digits.
pub proof fn lemma_zero_padded_bytes(n: nat, width: nat)
    ensures
        zero_padded_bytes(n, width).len() == width,
        all_digits(zero_padded_bytes(n, width)),
        n < pow10(width) ==> digits_value(zero_padded_bytes(n, width)) == n,
    decreases width,
{
    if width > 0 {
        let front = zero_padded_bytes(n / 10, (width - 1) as nat);
        let all = zero_padded_bytes(n, width);
        lemma_zero_padded_bytes(n / 10, (width - 1) as nat);
        assert(all.drop_last() =~= front);
        assert forall|i: int| 0 <= i < all.len() implies is_digit(#[trigger] all[i]) by {
            if i < all.len() - 1 {
                assert(all[i] == front[i]);
            }
        }
    }
}

/// The name of a segment file stands for the base offset it was made from.
pub proof fn lemma_segment_name_round_trip(base_offset: Offset)
    ensures
        spec_segment_offset(spec_segment_name_bytes(base_offset)) == Some(base_offset),
{
    let digits = zero_padded_bytes(base_offset as nat, NAME_DIGITS as nat);
    let name = spec_segment_name_bytes(base_offset);
    lemma_zero_padded_bytes(base_offset as nat, NAME_DIGITS as nat);
    assert(pow10(20) == 100_000_000_000_000_000_000) by {
        reveal_with_fuel(pow10, 21);
    }
    let n3 = name.drop_last();
    let n2 = n3.drop_last();
    let n1 = n2.drop_last();
    assert(n1.last() == DOT);
    assert(last_dot(n1) == 20);
    assert(last_dot(n2) == last_dot(n1));
    assert(last_dot(n3) == last_dot(n2));
    assert(last_dot(name) == last_dot(n3));
    assert(name.take(20) =~= digits);
    assert(is_digit(digits[0]));
}

/// The bytes of a run of ASCII characters.
pub open spec fn ascii_bytes(chars: Seq<char>) -> Seq<u8> {
    Seq::new(chars.len(), |i: int| chars[i] as u8)
}

/// The zero-padded digits of a number are the same as characters and as
/// bytes.
pub proof fn lemma_zero_padded_is_ascii(n: nat, width: nat)
    ensures
        ascii_bytes(zero_padded(n, width)) == zero_padded_bytes(n, width),
    decreases width,
{
    if width > 0 {
        lemma_zero_padded_is_ascii(n / 10, (width - 1) as nat);
        let front = zero_padded(n / 10, (width - 1) as nat);
        assert(ascii_bytes(front.push(digit_char(n % 10))) =~= ascii_bytes(front).push(
            (ZERO + n % 10) as u8,
        ));
    } else {
        assert(ascii_bytes(zero_padded(n, width)) =~= zero_padded_bytes(n, width));
    }
}

/// The name of a segment file is the same as characters and as bytes, so the
/// last component of a segment's path stands for the segment's base offset.
pub proof fn law_file_name_is_ascii(base_offset: Offset)
    ensures
        ascii_bytes(spec_segment_file_name(base_offset)) == spec_segment_name_bytes(base_offset),
        spec_segment_offset(ascii_bytes(spec_segment_file_name(base_offset))) == Some(
            base_offset,
        ),
{
    lemma_zero_padded_is_ascii(base_offset as nat, NAME_DIGITS as nat);
    lemma_zero_padded_bytes(base_offset as nat, NAME_DIGITS as nat);
    let digits = zero_padded(base_offset as nat, NAME_DIGITS as nat);
    assert(ascii_bytes(digits + log_suffix()) =~= ascii_bytes(digits) + log_suffix_bytes());
    lemma_segment_name_round_trip(base_offset);
}

} // verus!

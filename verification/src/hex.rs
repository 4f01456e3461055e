//! Hexadecimal text: formatting device parameter values and reading
//! them back.
//!
//! Device-side configuration values such as the address mask and the
//! reported ROM size travel as `0x`-prefixed lower-case hex strings.

use vstd::prelude::*;
use vstd::arithmetic::div_mod::*;
use vstd::arithmetic::mul::*;

verus! {

/// The lower-case hex digit for a value below sixteen.
pub open spec fn spec_hex_digit(d: int) -> char {
    if d == 0 {
        '0'
    } else if d == 1 {
        '1'
    } else if d == 2 {
        '2'
    } else if d == 3 {
        '3'
    } else if d == 4 {
        '4'
    } else if d == 5 {
        '5'
    } else if d == 6 {
        '6'
    } else if d == 7 {
        '7'
    } else if d == 8 {
        '8'
    } else if d == 9 {
        '9'
    } else if d == 10 {
        'a'
    } else if d == 11 {
        'b'
    } else if d == 12 {
        'c'
    } else if d == 13 {
        'd'
    } else if d == 14 {
        'e'
    } else {
        'f'
    }
}

/// The shortest hex spelling of a value, most significant digit first.
pub open spec fn spec_hex_seq(v: nat) -> Seq<char>
    decreases v,
{
    if v < 16 {
        seq![spec_hex_digit(v as int)]
    } else {
        spec_hex_seq(v / 16) + seq![spec_hex_digit((v % 16) as int)]
    }
}

/// A one-character string for one hex digit.
fn hex_digit_str(d: u32) -> (r: &'static str)
    requires
        d < 16,
    ensures
        r@ == seq![spec_hex_digit(d as int)],
{
    proof {
        reveal_strlit("0");
        reveal_strlit("1");
        reveal_strlit("2");
        reveal_strlit("3");
        reveal_strlit("4");
        reveal_strlit("5");
        reveal_strlit("6");
        reveal_strlit("7");
        reveal_strlit("8");
        reveal_strlit("9");
        reveal_strlit("a");
        reveal_strlit("b");
        reveal_strlit("c");
        reveal_strlit("d");
        reveal_strlit("e");
        reveal_strlit("f");
    }
    if d == 0 {
        "0"
    } else if d == 1 {
        "1"
    } else if d == 2 {
        "2"
    } else if d == 3 {
        "3"
    } else if d == 4 {
        "4"
    } else if d == 5 {
        "5"
    } else if d == 6 {
        "6"
    } else if d == 7 {
        "7"
    } else if d == 8 {
        "8"
    } else if d == 9 {
        "9"
    } else if d == 10 {
        "a"
    } else if d == 11 {
        "b"
    } else if d == 12 {
        "c"
    } else if d == 13 {
        "d"
    } else if d == 14 {
        "e"
    } else {
        "f"
    }
}

/// Append the hex spelling of a value to a string.
fn push_hex(s: &mut String, v: u32)
    ensures
        final(s)@ == old(s)@ + spec_hex_seq(v as nat),
    decreases v,
{
    if v >= 16 {
        proof {
            lemma_div_is_strictly_smaller(v as int, 16);
        }
        push_hex(s, v / 16);
    }
    s.append(hex_digit_str(v % 16));
    proof {
        if v >= 16 {
            assert(old(s)@ + spec_hex_seq((v / 16) as nat) + seq![
                spec_hex_digit((v % 16) as int),
            ] =~= old(s)@ + spec_hex_seq(v as nat));
        } else {
            assert(old(s)@ + seq![spec_hex_digit(v as int)] =~= old(s)@ + spec_hex_seq(v as nat));
        }
    }
}

/// Format a value as `0x`-prefixed lower-case hex, as the device
/// expects its numeric parameters.
pub fn u32_to_hex(value: u32) -> (r: String)
    ensures
        r@ == seq!['0', 'x'] + spec_hex_seq(value as nat),
{
    let mut s = String::from_str("0x");
    proof {
        reveal_strlit("0x");
        assert(s@ =~= seq!['0', 'x']);
    }
    push_hex(&mut s, value);
    s
}

/// Whether a character is a lower- or upper-case hex digit.
pub open spec fn spec_is_hex_digit(c: char) -> bool {
    ('0' <= c && c <= '9') || ('a' <= c && c <= 'f') || ('A' <= c && c <= 'F')
}

/// The value of one hex digit character.
pub open spec fn spec_hex_val(c: char) -> int {
    if '0' <= c && c <= '9' {
        c as int - '0' as int
    } else if 'a' <= c && c <= 'f' {
        c as int - 'a' as int + 10
    } else {
        c as int - 'A' as int + 10
    }
}

/// The value of a hex digit string, most significant digit first.
pub open spec fn spec_hex_value(s: Seq<char>) -> int
    decreases s.len(),
{
    if s.len() == 0 {
        0
    } else {
        spec_hex_value(s.drop_last()) * 16 + spec_hex_val(s.last())
    }
}

/// Every character of the string is a hex digit.
pub open spec fn spec_all_hex(s: Seq<char>) -> bool {
    forall|j: int| 0 <= j < s.len() ==> spec_is_hex_digit(#[trigger] s[j])
}

/// The value of one hex digit character.
fn hex_val(c: char) -> (r: Option<u32>)
    ensures
        match r {
            Some(v) => spec_is_hex_digit(c) && v == spec_hex_val(c) && v < 16,
            None => !spec_is_hex_digit(c),
        },
{
    if '0' <= c && c <= '9' {
        Some(c as u32 - '0' as u32)
    } else if 'a' <= c && c <= 'f' {
        Some(c as u32 - 'a' as u32 + 10)
    } else if 'A' <= c && c <= 'F' {
        Some(c as u32 - 'A' as u32 + 10)
    } else {
        None
    }
}

/// Parse a hex digit string into a machine word.  Fails on an empty
/// string, a non-digit character, or a value too large to hold.
pub fn parse_hex_usize(s: &str) -> (r: Option<usize>)
    ensures
        match r {
            Some(v) => s@.len() > 0 && spec_all_hex(s@) && v == spec_hex_value(s@)
                && spec_hex_value(s@) <= usize::MAX,
            None => s@.len() == 0 || !spec_all_hex(s@) || spec_hex_value(s@) > usize::MAX,
        },
{
    let n = s.unicode_len();
    if n == 0 {
        return None;
    }
    let mut acc: usize = 0;
    let mut i: usize = 0;
    while i < n
        invariant
            n == s@.len(),
            0 <= i <= n,
            acc == spec_hex_value(s@.take(i as int)),
            spec_all_hex(s@.take(i as int)),
        decreases n - i,
    {
        let c = s.get_char(i);
        let d = match hex_val(c) {
            Some(d) => d,
            None => {
                proof {
                    assert(s@.take(n as int) =~= s@);
                    assert(!spec_is_hex_digit(s@[i as int]));
                }
                return None;
            }
        };
        if acc > usize::MAX / 16 {
            proof {
                if spec_all_hex(s@) {
                    lemma_take_step_value(s@, i as int);
                    lemma_hex_value_nonneg(s@.take(i as int));
                    assert(16 * (usize::MAX / 16) + usize::MAX % 16 == usize::MAX) by {
                        lemma_fundamental_div_mod(usize::MAX as int, 16);
                    }
                    assert(acc * 16 >= (usize::MAX / 16 + 1) * 16) by (nonlinear_arith)
                        requires
                            acc > usize::MAX / 16,
                    ;
                    lemma_hex_prefix_le(s@, i as int + 1);
                    assert(spec_hex_value(s@) > usize::MAX);
                }
            }
            return None;
        }
        let acc16 = acc * 16;
        proof {
            assert(acc * 16 <= (usize::MAX / 16) * 16) by (nonlinear_arith)
                requires
                    acc <= usize::MAX / 16,
            ;
            assert((usize::MAX / 16) * 16 <= usize::MAX) by {
                lemma_fundamental_div_mod(usize::MAX as int, 16);
                lemma_mod_bound(usize::MAX as int, 16);
            }
        }
        if d as usize > usize::MAX - acc16 {
            proof {
                if spec_all_hex(s@) {
                    lemma_take_step_value(s@, i as int);
                    lemma_hex_prefix_le(s@, i as int + 1);
                    assert(spec_hex_value(s@) > usize::MAX);
                }
            }
            return None;
        }
        acc = acc16 + d as usize;
        proof {
            lemma_take_step_value(s@, i as int);
            assert(spec_all_hex(s@.take(i as int + 1))) by {
                assert(forall|j: int|
                    0 <= j < i as int + 1 ==> #[trigger] s@.take(i as int + 1)[j] == s@.take(
                        i as int,
                    ).push(s@[i as int])[j]);
                assert(s@.take(i as int + 1) =~= s@.take(i as int).push(s@[i as int]));
            }
        }
        i = i + 1;
    }
    proof {
        assert(s@.take(n as int) =~= s@);
    }
    Some(acc)
}

/// One more character multiplies the running value by sixteen and adds
/// the digit.
proof fn lemma_take_step_value(s: Seq<char>, i: int)
    requires
        0 <= i < s.len(),
    ensures
        spec_hex_value(s.take(i + 1)) == spec_hex_value(s.take(i)) * 16 + spec_hex_val(s[i]),
{
    assert(s.take(i + 1).drop_last() =~= s.take(i));
    assert(s.take(i + 1).last() == s[i]);
}

/// A hex value is never negative.
proof fn lemma_hex_value_nonneg(s: Seq<char>)
    requires
        spec_all_hex(s),
    ensures
        spec_hex_value(s) >= 0,
    decreases s.len(),
{
    if s.len() > 0 {
        assert(spec_all_hex(s.drop_last())) by {
            assert(forall|j: int| 0 <= j < s.len() - 1 ==> s.drop_last()[j] == s[j]);
        }
        lemma_hex_value_nonneg(s.drop_last());
        assert(spec_is_hex_digit(s.last()));
        assert(spec_hex_value(s.drop_last()) * 16 >= 0) by (nonlinear_arith)
            requires
                spec_hex_value(s.drop_last()) >= 0,
        ;
    }
}

/// The value of a prefix never exceeds the value of the whole digit
/// string.
proof fn lemma_hex_prefix_le(s: Seq<char>, i: int)
    requires
        0 <= i <= s.len(),
        spec_all_hex(s),
    ensures
        spec_hex_value(s.take(i)) <= spec_hex_value(s),
    decreases s.len() - i,
{
    if i < s.len() {
        lemma_take_step_value(s, i);
        assert(spec_all_hex(s.take(i))) by {
            assert(forall|j: int| 0 <= j < i ==> s.take(i)[j] == s[j]);
        }
        lemma_hex_value_nonneg(s.take(i));
        assert(spec_is_hex_digit(s[i]));
        assert(spec_hex_value(s.take(i)) * 16 >= spec_hex_value(s.take(i))) by (nonlinear_arith)
            requires
                spec_hex_value(s.take(i)) >= 0,
        ;
        lemma_hex_prefix_le(s, i + 1);
    } else {
        assert(s.take(i) =~= s);
    }
}

/// ASCII whitespace, as trimmed off parameter values.
pub open spec fn spec_is_space(c: char) -> bool {
    c == ' ' || c == '\t' || c == '\n' || c == '\r'
}

/// Leading whitespace removed.
pub open spec fn spec_trim_front(s: Seq<char>) -> Seq<char>
    decreases s.len(),
{
    if s.len() > 0 && spec_is_space(s[0]) {
        spec_trim_front(s.drop_first())
    } else {
        s
    }
}

/// Trailing whitespace removed.
pub open spec fn spec_trim_back(s: Seq<char>) -> Seq<char>
    decreases s.len(),
{
    if s.len() > 0 && spec_is_space(s.last()) {
        spec_trim_back(s.drop_last())
    } else {
        s
    }
}

/// Leading and trailing whitespace removed.
pub open spec fn spec_trim(s: Seq<char>) -> Seq<char> {
    spec_trim_back(spec_trim_front(s))
}

/// Dropping the leading run of whitespace is what trimming the front
/// does.
proof fn lemma_trim_front_at(s: Seq<char>, a: int)
    requires
        0 <= a <= s.len(),
        forall|j: int| 0 <= j < a ==> spec_is_space(s[j]),
        a == s.len() || !spec_is_space(s[a]),
    ensures
        spec_trim_front(s) == s.skip(a),
    decreases a,
{
    if a == 0 {
        assert(s.skip(0) =~= s);
    } else {
        assert(spec_is_space(s[0]));
        lemma_trim_front_at(s.drop_first(), a - 1);
        assert(s.drop_first().skip(a - 1) =~= s.skip(a));
    }
}

/// Dropping the trailing run of whitespace is what trimming the back
/// does.
proof fn lemma_trim_back_at(s: Seq<char>, b: int)
    requires
        0 <= b <= s.len(),
        forall|j: int| b <= j < s.len() ==> spec_is_space(s[j]),
        b == 0 || !spec_is_space(s[b - 1]),
    ensures
        spec_trim_back(s) == s.take(b),
    decreases s.len() - b,
{
    if b == s.len() {
        if s.len() > 0 {
            assert(!spec_is_space(s.last()));
        }
        assert(s.take(b) =~= s);
    } else {
        assert(spec_is_space(s.last()));
        lemma_trim_back_at(s.drop_last(), b);
        assert(s.drop_last().take(b) =~= s.take(b));
    }
}

/// ASCII whitespace, as trimmed off parameter values.
fn is_space_char(c: char) -> (r: bool)
    ensures
        r == spec_is_space(c),
{
    c == ' ' || c == '\t' || c == '\n' || c == '\r'
}

/// A string with its leading and trailing whitespace removed.
pub fn trim_spaces(s: &str) -> (r: &str)
    ensures
        r@ == spec_trim(s@),
{
    let n = s.unicode_len();
    let mut a: usize = 0;
    while a < n && is_space_char(s.get_char(a))
        invariant
            n == s@.len(),
            0 <= a <= n,
            forall|j: int| 0 <= j < a ==> spec_is_space(s@[j]),
        decreases n - a,
    {
        a = a + 1;
    }
    let mut b: usize = n;
    while b > a && is_space_char(s.get_char(b - 1))
        invariant
            n == s@.len(),
            a <= b <= n,
            forall|j: int| b <= j < n ==> spec_is_space(s@[j]),
        decreases b,
    {
        b = b - 1;
    }
    proof {
        lemma_trim_front_at(s@, a as int);
        let rest = s@.skip(a as int);
        lemma_trim_back_at(rest, b as int - a as int);
        assert(rest.take(b as int - a as int) =~= s@.subrange(a as int, b as int));
    }
    s.substring_char(a, b)
}

} // verus!

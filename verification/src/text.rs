//! Text helpers: joining paths, decimal numerals and the `ROOT+` marker.

use vstd::prelude::*;
use vstd::string::*;

verus! {

/// Joins `part` onto `base` as a Unix path: an absolute `part` replaces `base`,
/// otherwise a `/` is put between them unless `base` is empty or ends with one.
pub open spec fn path_join(base: Seq<char>, part: Seq<char>) -> Seq<char> {
    if part.len() > 0 && part[0] == '/' {
        part
    } else if base.len() > 0 && base.last() != '/' {
        base + seq!['/'] + part
    } else {
        base + part
    }
}

/// The path `part` adjoined to `base`, as `Path::join` does it on Unix.
pub fn join_path(base: &str, part: &str) -> (joined: String)
    ensures
        joined@ == path_join(base@, part@),
{
    let part_len = part.unicode_len();
    if part_len > 0 && part.get_char(0) == '/' {
        return String::from_str(part);
    }
    let base_len = base.unicode_len();
    let mut joined = String::from_str(base);
    if base_len > 0 && base.get_char(base_len - 1) != '/' {
        joined.append("/");
        proof {
            reveal_strlit("/");
        }
    }
    joined.append(part);
    joined
}

/// The character of a decimal digit.
pub open spec fn digit_char(d: int) -> char {
    if d == 0 {
        '0'
    } else if d == 1 {
        '1'
    } else if d == 2 {
        '2'
    } else if d == 3 {
        '3'
    } else if d == 4 {
        '4'
    } else if d == 5 {
        '5'
    } else if d == 6 {
        '6'
    } else if d == 7 {
        '7'
    } else if d == 8 {
        '8'
    } else {
        '9'
    }
}

/// The decimal numeral of `n`, without sign or leading zeros.
pub open spec fn decimal(n: nat) -> Seq<char>
    decreases n,
{
    if n < 10 {
        seq![digit_char(n as int)]
    } else {
        decimal(n / 10).push(digit_char((n % 10) as int))
    }
}

fn digit_text(d: u64) -> (s: &'static str)
    requires
        d < 10,
    ensures
        s@ == seq![digit_char(d as int)],
{
    if d == 0 {
        proof { reveal_strlit("0"); }
        "0"
    } else if d == 1 {
        proof { reveal_strlit("1"); }
        "1"
    } else if d == 2 {
        proof { reveal_strlit("2"); }
        "2"
    } else if d == 3 {
        proof { reveal_strlit("3"); }
        "3"
    } else if d == 4 {
        proof { reveal_strlit("4"); }
        "4"
    } else if d == 5 {
        proof { reveal_strlit("5"); }
        "5"
    } else if d == 6 {
        proof { reveal_strlit("6"); }
        "6"
    } else if d == 7 {
        proof { reveal_strlit("7"); }
        "7"
    } else if d == 8 {
        proof { reveal_strlit("8"); }
        "8"
    } else {
        proof { reveal_strlit("9"); }
        "9"
    }
}

/// The decimal numeral of `n`, as `n.to_string()` writes it.
pub fn decimal_string(n: u64) -> (s: String)
    ensures
        s@ == decimal(n as nat),
    decreases n,
{
    if n < 10 {
        String::from_str(digit_text(n))
    } else {
        let mut s = decimal_string(n / 10);
        s.append(digit_text(n % 10));
        s
    }
}

/// The value of a numeral made of decimal digits.
pub open spec fn numeral_value(s: Seq<char>) -> int
    decreases s.len(),
{
    if s.len() == 0 {
        0
    } else {
        numeral_value(s.drop_last()) * 10 + (s.last() as int - '0' as int)
    }
}

proof fn lemma_digit_value(d: int)
    requires
        0 <= d < 10,
    ensures
        digit_char(d) as int - '0' as int == d,
        digit_char(d) != '/',
{
}

/// Reading the numeral of `n` gives `n` back.
pub proof fn lemma_decimal_value(n: nat)
    ensures
        numeral_value(decimal(n)) == n,
        decimal(n).len() > 0,
        decimal(n)[0] != '/',
    decreases n,
{
    if n < 10 {
        lemma_digit_value(n as int);
        assert(decimal(n).drop_last() =~= Seq::<char>::empty());
        assert(numeral_value(decimal(n)) == numeral_value(Seq::<char>::empty()) * 10 + (
        digit_char(n as int) as int - '0' as int));
    } else {
        lemma_digit_value((n % 10) as int);
        lemma_decimal_value(n / 10);
        let d = decimal(n);
        assert(d.drop_last() =~= decimal(n / 10));
        assert(d.last() == digit_char((n % 10) as int));
        assert(numeral_value(d) == numeral_value(decimal(n / 10)) * 10 + (n % 10));
        assert((n / 10) * 10 + n % 10 == n) by (nonlinear_arith);
        assert(d[0] == decimal(n / 10)[0]);
    }
}

/// Distinct numbers have distinct numerals.
pub proof fn lemma_decimal_injective(m: nat, n: nat)
    requires
        m != n,
    ensures
        decimal(m) != decimal(n),
{
    lemma_decimal_value(m);
    lemma_decimal_value(n);
}

/// The marker that a configured value is a path relative to the run directory.
pub open spec fn root_marker() -> Seq<char> {
    seq!['R', 'O', 'O', 'T', '+']
}

/// Whether `v` begins with the `ROOT+` marker.
pub open spec fn has_root_marker(v: Seq<char>) -> bool {
    v.len() >= 5 && v.take(5) == root_marker()
}

/// What follows the `ROOT+` marker in `v`, or `None` where `v` does not begin with it,
/// as `str::strip_prefix` gives it.
pub fn strip_root_marker(v: &str) -> (rest: Option<&str>)
    ensures
        match rest {
            Some(r) => has_root_marker(v@) && r@ == v@.skip(5),
            None => !has_root_marker(v@),
        },
{
    let len = v.unicode_len();
    if len < 5 {
        return None;
    }
    let marked = v.get_char(0) == 'R' && v.get_char(1) == 'O' && v.get_char(2) == 'O'
        && v.get_char(3) == 'T' && v.get_char(4) == '+';
    if !marked {
        proof {
            if has_root_marker(v@) {
                assert(v@.take(5)[0] == 'R');
                assert(v@.take(5)[1] == 'O');
                assert(v@.take(5)[2] == 'O');
                assert(v@.take(5)[3] == 'T');
                assert(v@.take(5)[4] == '+');
            }
        }
        return None;
    }
    assert(v@.take(5) =~= root_marker());
    let rest = v.substring_char(5, len);
    assert(rest@ =~= v@.skip(5));
    Some(rest)
}

} // verus!

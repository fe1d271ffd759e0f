//! Text helpers: the lexicographic order in which report rows are listed,
//! and rendering of durations as the reports print them.

use vstd::prelude::*;
use vstd::string::StrSliceExecFns;
use vstd::string::StringExecFns;

verus! {

/// Strict lexicographic order on character sequences, by code point: the
/// order of report rows.  It agrees with the ordering of Rust strings,
/// since UTF-8 byte order equals code-point order.
pub open spec fn str_lt(a: Seq<char>, b: Seq<char>) -> bool
    decreases a.len(),
{
    b.len() > 0 && (a.len() == 0 || (a[0] as u32) < (b[0] as u32) || (a[0] == b[0] && str_lt(
        a.drop_first(),
        b.drop_first(),
    )))
}

/// The order is irreflexive.
pub proof fn lemma_str_lt_irrefl(a: Seq<char>)
    ensures
        !str_lt(a, a),
    decreases a.len(),
{
    if a.len() > 0 {
        lemma_str_lt_irrefl(a.drop_first());
    }
}

/// The order is transitive.
pub proof fn lemma_str_lt_trans(a: Seq<char>, b: Seq<char>, c: Seq<char>)
    requires
        str_lt(a, b),
        str_lt(b, c),
    ensures
        str_lt(a, c),
    decreases a.len(),
{
    if a.len() > 0 && a[0] == b[0] && b[0] == c[0] {
        lemma_str_lt_trans(a.drop_first(), b.drop_first(), c.drop_first());
    }
}

/// The order is connected: sequences that compare neither way are equal.
pub proof fn lemma_str_lt_connected(a: Seq<char>, b: Seq<char>)
    requires
        !str_lt(a, b),
        !str_lt(b, a),
    ensures
        a == b,
    decreases a.len(),
{
    if a.len() == 0 {
        assert(b.len() == 0);
        assert(a =~= b);
    } else {
        assert(b.len() > 0);
        assert(a[0] as u32 == b[0] as u32);
        vstd::utf8::char_u32_cast(a[0], a[0] as u32);
        vstd::utf8::char_u32_cast(b[0], b[0] as u32);
        assert(a[0] == b[0]);
        lemma_str_lt_connected(a.drop_first(), b.drop_first());
        assert forall|i: int| 0 <= i < a.len() implies a[i] == b[i] by {
            if i > 0 {
                assert(a[i] == a.drop_first()[i - 1]);
                assert(b[i] == b.drop_first()[i - 1]);
            }
        }
        assert(a =~= b);
    }
}

/// Comparing two sequences is decided by their first differing position.
proof fn lemma_str_lt_step(a: Seq<char>, b: Seq<char>)
    requires
        a.len() > 0,
        b.len() > 0,
        a[0] == b[0],
    ensures
        str_lt(a, b) == str_lt(a.drop_first(), b.drop_first()),
{
}

/// Whether `a` orders strictly before `b`.
pub fn str_less(a: &str, b: &str) -> (r: bool)
    ensures
        r == str_lt(a@, b@),
{
    let a_len = a.unicode_len();
    let b_len = b.unicode_len();
    proof {
        assert(a@.skip(0) =~= a@);
        assert(b@.skip(0) =~= b@);
    }
    let mut i: usize = 0;
    while i < a_len && i < b_len
        invariant
            i <= a_len,
            i <= b_len,
            a_len == a@.len(),
            b_len == b@.len(),
            str_lt(a@, b@) == str_lt(a@.skip(i as int), b@.skip(i as int)),
        decreases a_len - i,
    {
        let ca = a.get_char(i);
        let cb = b.get_char(i);
        proof {
            assert(a@.skip(i as int)[0] == a@[i as int]);
            assert(b@.skip(i as int)[0] == b@[i as int]);
        }
        if (ca as u32) < (cb as u32) {
            assert(str_lt(a@.skip(i as int), b@.skip(i as int)));
            return true;
        } else if (cb as u32) < (ca as u32) {
            assert(!str_lt(a@.skip(i as int), b@.skip(i as int)));
            return false;
        }
        assert(ca == cb);
        proof {
            lemma_str_lt_step(a@.skip(i as int), b@.skip(i as int));
            assert(a@.skip(i as int).drop_first() =~= a@.skip(i as int + 1));
            assert(b@.skip(i as int).drop_first() =~= b@.skip(i as int + 1));
        }
        i = i + 1;
    }
    if i < b_len {
        assert(a@.skip(i as int).len() == 0);
        assert(str_lt(a@.skip(i as int), b@.skip(i as int)));
        true
    } else {
        assert(b@.skip(i as int).len() == 0);
        assert(!str_lt(a@.skip(i as int), b@.skip(i as int)));
        false
    }
}

/// The ten digit characters.
pub open spec fn digit_char(d: int) -> char {
    if d == 0 {
        '0'
    } else if d == 1 {
        '1'
    } else if d == 2 {
        '2'
    } else if d == 3 {
        '3'
    } else if d == 4 {
        '4'
    } else if d == 5 {
        '5'
    } else if d == 6 {
        '6'
    } else if d == 7 {
        '7'
    } else if d == 8 {
        '8'
    } else {
        '9'
    }
}

/// The decimal digits of `n`, most significant first, no leading zeros.
pub open spec fn dec_digits(n: int) -> Seq<char>
    decreases n,
{
    if n < 10 {
        seq![digit_char(n)]
    } else {
        dec_digits(n / 10) + seq![digit_char(n % 10)]
    }
}

/// Two decimal digits, zero-padded.
pub open spec fn two_digits(n: int) -> Seq<char> {
    seq![digit_char(n / 10), digit_char(n % 10)]
}

/// One digit as a borrowed string.
fn digit_str(d: u64) -> (r: &'static str)
    requires
        d < 10,
    ensures
        r@ == seq![digit_char(d as int)],
{
    if d == 0 {
        proof {
            reveal_strlit("0");
            assert("0"@ =~= seq![digit_char(0)]);
        }
        "0"
    } else if d == 1 {
        proof {
            reveal_strlit("1");
            assert("1"@ =~= seq![digit_char(1)]);
        }
        "1"
    } else if d == 2 {
        proof {
            reveal_strlit("2");
            assert("2"@ =~= seq![digit_char(2)]);
        }
        "2"
    } else if d == 3 {
        proof {
            reveal_strlit("3");
            assert("3"@ =~= seq![digit_char(3)]);
        }
        "3"
    } else if d == 4 {
        proof {
            reveal_strlit("4");
            assert("4"@ =~= seq![digit_char(4)]);
        }
        "4"
    } else if d == 5 {
        proof {
            reveal_strlit("5");
            assert("5"@ =~= seq![digit_char(5)]);
        }
        "5"
    } else if d == 6 {
        proof {
            reveal_strlit("6");
            assert("6"@ =~= seq![digit_char(6)]);
        }
        "6"
    } else if d == 7 {
        proof {
            reveal_strlit("7");
            assert("7"@ =~= seq![digit_char(7)]);
        }
        "7"
    } else if d == 8 {
        proof {
            reveal_strlit("8");
            assert("8"@ =~= seq![digit_char(8)]);
        }
        "8"
    } else {
        proof {
            reveal_strlit("9");
            assert("9"@ =~= seq![digit_char(9)]);
        }
        "9"
    }
}

/// Append the decimal digits of `n`.
pub fn push_decimal(s: &mut String, n: u64)
    ensures
        final (s)@ == old(s)@ + dec_digits(n as int),
    decreases n,
{
    if n < 10 {
        s.append(digit_str(n));
    } else {
        push_decimal(s, n / 10);
        s.append(digit_str(n % 10));
        proof {
            assert(final (s)@ =~= old(s)@ + dec_digits(n as int));
        }
    }
}

/// Append two zero-padded decimal digits.
pub fn push_two_digits(s: &mut String, n: u64)
    requires
        n < 100,
    ensures
        final (s)@ == old(s)@ + two_digits(n as int),
{
    s.append(digit_str(n / 10));
    s.append(digit_str(n % 10));
    proof {
        assert(final (s)@ =~= old(s)@ + two_digits(n as int));
    }
}

/// A span of seconds as the reports print it: whole minutes, split into
/// hours and minutes; `"Hh MMm"` when at least one hour, else `"Mm"`.
pub open spec fn duration_text(secs: int) -> Seq<char> {
    let total_minutes = secs / 60;
    let hours = total_minutes / 60;
    let minutes = total_minutes % 60;
    if hours > 0 {
        dec_digits(hours) + "h "@ + two_digits(minutes) + "m"@
    } else {
        dec_digits(minutes) + "m"@
    }
}

/// Render a non-negative span of seconds for a report.
pub fn duration_to_string(secs: i64) -> (r: String)
    requires
        0 <= secs,
    ensures
        r@ == duration_text(secs as int),
{
    let total_minutes = (secs as u64) / 60;
    let hours = total_minutes / 60;
    let minutes = total_minutes % 60;
    let mut r = String::new();
    if hours > 0 {
        push_decimal(&mut r, hours);
        r.append("h ");
        push_two_digits(&mut r, minutes);
        r.append("m");
        proof {
            assert(r@ =~= duration_text(secs as int));
        }
    } else {
        push_decimal(&mut r, minutes);
        r.append("m");
        proof {
            assert(r@ =~= duration_text(secs as int));
        }
    }
    r
}

} // verus!

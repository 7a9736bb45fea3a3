//! Decimal and list rendering of IDs for the human-readable messages of
//! the error types: integers as Rust's `Display` writes them, ID lists
//! as Rust's `Debug` writes a `Vec<i64>` (`[1, 2, 3]`).
use vstd::prelude::*;
use vstd::string::StringExecFns;

verus! {

/// The decimal digit character for `d` (`0 <= d <= 9`).
pub open spec fn digit_char(d: nat) -> char {
    if d == 0 {
        '0'
    } else if d == 1 {
        '1'
    } else if d == 2 {
        '2'
    } else if d == 3 {
        '3'
    } else if d == 4 {
        '4'
    } else if d == 5 {
        '5'
    } else if d == 6 {
        '6'
    } else if d == 7 {
        '7'
    } else if d == 8 {
        '8'
    } else {
        '9'
    }
}

/// The decimal digits of `n`, most significant first, without leading zeros.
pub open spec fn nat_digits(n: nat) -> Seq<char>
    decreases n,
{
    if n < 10 {
        seq![digit_char(n)]
    } else {
        nat_digits(n / 10).push(digit_char(n % 10))
    }
}

/// The decimal text of an integer, with a leading `-` when it is negative.
pub open spec fn int_decimal(i: int) -> Seq<char> {
    if i < 0 {
        seq!['-'] + nat_digits((-i) as nat)
    } else {
        nat_digits(i as nat)
    }
}

/// The number that the decimal digit characters of `s` stand for, most
/// significant first.
pub open spec fn decimal_value(s: Seq<char>) -> int
    decreases s.len(),
{
    if s.len() == 0 {
        0
    } else {
        decimal_value(s.drop_last()) * 10 + (s.last() as int - '0' as int)
    }
}

/// The decimal text of `n` is made of the characters `'0'` to `'9'`, has
/// no leading zero (it is `"0"` for zero), and reads back as `n`.
pub proof fn law_nat_digits_read_back(n: nat)
    ensures
        nat_digits(n).len() > 0,
        forall|i: int| 0 <= i < nat_digits(n).len() ==> '0' <= #[trigger] nat_digits(n)[i] <= '9',
        n > 0 ==> nat_digits(n)[0] != '0',
        n == 0 ==> nat_digits(n) == seq!['0'],
        decimal_value(nat_digits(n)) == n,
    decreases n,
{
    let d = n % 10;
    assert(digit_char(d) as int - '0' as int == d && '0' <= digit_char(d) <= '9');
    if n >= 10 {
        law_nat_digits_read_back(n / 10);
        let prev = nat_digits(n / 10);
        let s = prev.push(digit_char(d));
        assert(s.drop_last() =~= prev);
        assert(s[0] == prev[0]);
        assert forall|i: int| 0 <= i < s.len() implies '0' <= #[trigger] s[i] <= '9' by {
            if i < prev.len() {
                assert(s[i] == prev[i]);
            }
        }
        assert(decimal_value(s) == decimal_value(prev) * 10 + d);
        assert(nat_digits(n) == s);
        assert((n / 10) * 10 + n % 10 == n);
    } else {
        assert(nat_digits(n) =~= seq![digit_char(n)]);
        assert(seq![digit_char(n)].drop_last() =~= Seq::<char>::empty());
        assert(decimal_value(Seq::<char>::empty()) == 0);
        assert(decimal_value(nat_digits(n)) == 0 * 10 + (digit_char(n) as int - '0' as int));
    }
}

/// The decimal text of an integer is a `-` followed by the text of its
/// magnitude when it is negative, and the text of the number otherwise;
/// either way its digits read back as the magnitude.
pub proof fn law_int_decimal_read_back(i: int)
    ensures
        i < 0 ==> int_decimal(i)[0] == '-' && int_decimal(i).drop_first() == nat_digits((-i) as nat)
            && decimal_value(int_decimal(i).drop_first()) == -i,
        i >= 0 ==> int_decimal(i) == nat_digits(i as nat) && decimal_value(int_decimal(i)) == i,
{
    if i < 0 {
        law_nat_digits_read_back((-i) as nat);
        assert(int_decimal(i).drop_first() =~= nat_digits((-i) as nat));
    } else {
        law_nat_digits_read_back(i as nat);
    }
}

/// The items of `ids` in decimal, separated by `", "`.
pub open spec fn joined_ids(ids: Seq<i64>) -> Seq<char>
    decreases ids.len(),
{
    if ids.len() == 0 {
        Seq::empty()
    } else if ids.len() == 1 {
        int_decimal(ids[0] as int)
    } else {
        joined_ids(ids.drop_last()) + ", "@ + int_decimal(ids.last() as int)
    }
}

/// A list of IDs in brackets, as `[1, 2, 3]`.
pub open spec fn id_list_text(ids: Seq<i64>) -> Seq<char> {
    "["@ + joined_ids(ids) + "]"@
}

/// The bracketed lists of `lists`, separated by `", "`.
pub open spec fn joined_lists(lists: Seq<Seq<i64>>) -> Seq<char>
    decreases lists.len(),
{
    if lists.len() == 0 {
        Seq::empty()
    } else if lists.len() == 1 {
        id_list_text(lists[0])
    } else {
        joined_lists(lists.drop_last()) + ", "@ + id_list_text(lists.last())
    }
}

/// The views of a list of ID lists.
pub open spec fn list_views(lists: Seq<Vec<i64>>) -> Seq<Seq<i64>> {
    lists.map_values(|v: Vec<i64>| v@)
}

fn push_digit(s: &mut String, d: u64)
    requires
        d < 10,
    ensures
        final(s)@ == old(s)@.push(digit_char(d as nat)),
{
    let t: &str = if d == 0 {
        proof {
            reveal_strlit("0");
        }
        "0"
    } else if d == 1 {
        proof {
            reveal_strlit("1");
        }
        "1"
    } else if d == 2 {
        proof {
            reveal_strlit("2");
        }
        "2"
    } else if d == 3 {
        proof {
            reveal_strlit("3");
        }
        "3"
    } else if d == 4 {
        proof {
            reveal_strlit("4");
        }
        "4"
    } else if d == 5 {
        proof {
            reveal_strlit("5");
        }
        "5"
    } else if d == 6 {
        proof {
            reveal_strlit("6");
        }
        "6"
    } else if d == 7 {
        proof {
            reveal_strlit("7");
        }
        "7"
    } else if d == 8 {
        proof {
            reveal_strlit("8");
        }
        "8"
    } else {
        proof {
            reveal_strlit("9");
        }
        "9"
    };
    assert(t@ =~= seq![digit_char(d as nat)]);
    s.append(t);
    assert(s@ =~= old(s)@.push(digit_char(d as nat)));
}

/// Append the decimal digits of `n`.
pub fn push_u64(s: &mut String, n: u64)
    ensures
        final(s)@ == old(s)@ + nat_digits(n as nat),
    decreases n,
{
    if n >= 10 {
        push_u64(s, n / 10);
    }
    push_digit(s, n % 10);
    proof {
        if n >= 10 {
            assert(s@ =~= old(s)@ + nat_digits(n as nat));
        } else {
            assert(s@ =~= old(s)@ + nat_digits(n as nat));
        }
    }
}

/// Append the decimal text of `x`, as `Display` writes an `i64`.
pub fn push_i64(s: &mut String, x: i64)
    ensures
        final(s)@ == old(s)@ + int_decimal(x as int),
{
    if x < 0 {
        let m: u64 = if x == i64::MIN {
            9223372036854775808u64
        } else {
            (-x) as u64
        };
        s.append("-");
        push_u64(s, m);
        proof {
            reveal_strlit("-");
            assert(s@ =~= old(s)@ + int_decimal(x as int));
        }
    } else {
        push_u64(s, x as u64);
    }
}

/// Append the decimal text of a count.
pub fn push_usize(s: &mut String, n: usize)
    ensures
        final(s)@ == old(s)@ + nat_digits(n as nat),
{
    push_u64(s, n as u64);
}

/// Append `ids` as a bracketed list, as `Debug` writes a `Vec<i64>`.
pub fn push_id_list(s: &mut String, ids: &[i64])
    ensures
        final(s)@ == old(s)@ + id_list_text(ids@),
{
    s.append("[");
    let ghost start = s@;
    let mut i: usize = 0;
    while i < ids.len()
        invariant
            i <= ids.len(),
            s@ == start + joined_ids(ids@.take(i as int)),
        decreases ids.len() - i,
    {
        if i > 0 {
            s.append(", ");
        }
        push_i64(s, ids[i]);
        proof {
            let t = ids@.take(i + 1);
            assert(t.drop_last() =~= ids@.take(i as int));
            assert(t.last() == ids@[i as int]);
            if i == 0 {
                assert(ids@.take(0) =~= Seq::<i64>::empty());
                assert(s@ =~= start + joined_ids(t));
            } else {
                assert(s@ =~= start + joined_ids(t));
            }
        }
        i = i + 1;
    }
    assert(ids@.take(ids.len() as int) =~= ids@);
    s.append("]");
    assert(s@ =~= old(s)@ + id_list_text(ids@));
}

/// Append `lists` as a comma-separated sequence of bracketed ID lists.
pub fn push_joined_lists(s: &mut String, lists: &[Vec<i64>])
    ensures
        final(s)@ == old(s)@ + joined_lists(list_views(lists@)),
{
    let ghost start = s@;
    let ghost views = list_views(lists@);
    let mut i: usize = 0;
    while i < lists.len()
        invariant
            i <= lists.len(),
            views == list_views(lists@),
            s@ == start + joined_lists(views.take(i as int)),
        decreases lists.len() - i,
    {
        if i > 0 {
            s.append(", ");
        }
        push_id_list(s, lists[i].as_slice());
        proof {
            let t = views.take(i + 1);
            assert(t.drop_last() =~= views.take(i as int));
            assert(t.last() == lists@[i as int]@);
            if i == 0 {
                assert(views.take(0) =~= Seq::<Seq<i64>>::empty());
            }
            assert(s@ =~= start + joined_lists(t));
        }
        i = i + 1;
    }
    assert(views.take(lists.len() as int) =~= views);
}

} // verus!

//! The names of batches: the dump, a colon, and the index of the first file in decimal.
use vstd::prelude::*;

verus! {

/// The decimal digit of a number below ten.
pub open spec fn digit(d: int) -> char {
    (48 + d) as char
}

/// A natural number in decimal, without leading zeros.
pub open spec fn decimal_nat(n: nat) -> Seq<char>
    decreases n,
{
    if n < 10 {
        seq![digit(n as int)]
    } else {
        decimal_nat(n / 10).push(digit((n % 10) as int))
    }
}

/// An integer in decimal, with a minus sign where it is negative.
pub open spec fn decimal(n: int) -> Seq<char> {
    if n < 0 {
        seq!['-'] + decimal_nat((-n) as nat)
    } else {
        decimal_nat(n as nat)
    }
}

/// The name of the batch of `dump` that starts at file `start`.
pub open spec fn batch_name(dump: Seq<char>, start: int) -> Seq<char> {
    dump + seq![':'] + decimal(start)
}

fn digit_text(d: u32) -> (s: &'static str)
    requires
        d < 10,
    ensures
        s@ == seq![digit(d as int)],
{
    proof {
        reveal_strlit("0");
        reveal_strlit("1");
        reveal_strlit("2");
        reveal_strlit("3");
        reveal_strlit("4");
        reveal_strlit("5");
        reveal_strlit("6");
        reveal_strlit("7");
        reveal_strlit("8");
        reveal_strlit("9");
    }
    let s = match d {
        0 => "0",
        1 => "1",
        2 => "2",
        3 => "3",
        4 => "4",
        5 => "5",
        6 => "6",
        7 => "7",
        8 => "8",
        _ => "9",
    };
    assert(s@ =~= seq![digit(d as int)]);
    s
}

fn append_digits(out: &mut String, n: u32)
    ensures
        final(out)@ == old(out)@ + decimal_nat(n as nat),
    decreases n,
{
    if n >= 10 {
        append_digits(out, n / 10);
    }
    out.append(digit_text(n % 10));
    assert(out@ =~= old(out)@ + decimal_nat(n as nat));
}

/// Appends an integer in decimal.
pub fn append_decimal(out: &mut String, n: i32)
    ensures
        final(out)@ == old(out)@ + decimal(n as int),
{
    if n < 0 {
        proof {
            reveal_strlit("-");
            assert("-"@ =~= seq!['-']);
        }
        out.append("-");
        append_digits(out, (-(n as i64)) as u32);
        assert(out@ =~= old(out)@ + decimal(n as int));
    } else {
        append_digits(out, n as u32);
    }
}

/// The name of the batch of `dump` that starts at file `start`.
pub fn batch_id(dump: &str, start: i32) -> (id: String)
    ensures
        id@ == batch_name(dump@, start as int),
{
    let mut id = dump.to_owned();
    proof {
        reveal_strlit(":");
        assert(":"@ =~= seq![':']);
    }
    id.append(":");
    append_decimal(&mut id, start);
    id
}

proof fn lemma_digits(n: nat)
    ensures
        decimal_nat(n).len() > 0,
        forall|i: int|
            0 <= i < decimal_nat(n).len() ==> 48 <= #[trigger] decimal_nat(n)[i] as int && (
            decimal_nat(n)[i] as int) < 58,
    decreases n,
{
    if n >= 10 {
        lemma_digits(n / 10);
    }
}

proof fn lemma_decimal_nat_injective(a: nat, b: nat)
    requires
        decimal_nat(a) == decimal_nat(b),
    ensures
        a == b,
    decreases a,
{
    let s = decimal_nat(a);
    lemma_digits(a / 10);
    lemma_digits(b / 10);
    if a < 10 {
        if b >= 10 {
            assert(s.len() == 1);
            assert(decimal_nat(b).len() == decimal_nat(b / 10).len() + 1);
        }
        assert(digit(a as int) == s[0]);
        assert(digit(b as int) == s[0]);
    } else {
        if b < 10 {
            assert(s.len() == 1);
            assert(decimal_nat(a).len() == decimal_nat(a / 10).len() + 1);
        }
        assert(decimal_nat(a / 10) =~= s.drop_last());
        assert(decimal_nat(b / 10) =~= s.drop_last());
        lemma_decimal_nat_injective(a / 10, b / 10);
        assert(digit((a % 10) as int) == s.last());
        assert(digit((b % 10) as int) == s.last());
    }
}

proof fn lemma_decimal(n: int)
    ensures
        decimal(n).len() > 0,
        forall|i: int| 0 <= i < decimal(n).len() ==> #[trigger] decimal(n)[i] != ':',
        n < 0 ==> decimal(n)[0] == '-',
        n >= 0 ==> decimal(n)[0] != '-',
{
    if n < 0 {
        lemma_digits((-n) as nat);
        assert forall|i: int| 0 <= i < decimal(n).len() implies #[trigger] decimal(n)[i] != ':' by {
            if i > 0 {
                assert(decimal(n)[i] == decimal_nat((-n) as nat)[i - 1]);
            }
        }
    } else {
        lemma_digits(n as nat);
    }
}

/// No two numbers are written alike.
pub proof fn law_decimal_injective(a: int, b: int)
    requires
        decimal(a) == decimal(b),
    ensures
        a == b,
{
    lemma_decimal(a);
    lemma_decimal(b);
    if a < 0 {
        assert(decimal(a).subrange(1, decimal(a).len() as int) =~= decimal_nat((-a) as nat));
        assert(decimal(b).subrange(1, decimal(b).len() as int) =~= decimal_nat((-b) as nat));
        lemma_decimal_nat_injective((-a) as nat, (-b) as nat);
    } else {
        lemma_decimal_nat_injective(a as nat, b as nat);
    }
}

/// The name of a batch says which dump it belongs to and where it starts.
pub proof fn law_batch_name_injective(dump_a: Seq<char>, a: int, dump_b: Seq<char>, b: int)
    requires
        batch_name(dump_a, a) == batch_name(dump_b, b),
    ensures
        dump_a == dump_b,
        a == b,
{
    let s = batch_name(dump_a, a);
    let t = batch_name(dump_b, b);
    lemma_decimal(a);
    lemma_decimal(b);
    let na = dump_a.len() as int;
    let nb = dump_b.len() as int;
    assert(s.len() == na + 1 + decimal(a).len());
    assert(t.len() == nb + 1 + decimal(b).len());
    assert(s[na] == ':');
    assert(t[nb] == ':');
    if na < nb {
        assert(s[nb] == decimal(a)[nb - na - 1]);
    }
    if nb < na {
        assert(t[na] == decimal(b)[na - nb - 1]);
    }
    assert(na == nb);
    assert(s.subrange(0, na) =~= dump_a);
    assert(t.subrange(0, nb) =~= dump_b);
    assert(s.subrange(na + 1, s.len() as int) =~= decimal(a));
    assert(t.subrange(nb + 1, t.len() as int) =~= decimal(b));
    law_decimal_injective(a, b);
}

/// The number that a row of decimal digits is read as.
pub open spec fn read_digits(s: Seq<char>) -> int
    decreases s.len(),
{
    if s.len() == 0 {
        0
    } else {
        10 * read_digits(s.drop_last()) + (s.last() as int - '0' as int)
    }
}

proof fn lemma_read_back(n: nat)
    ensures
        read_digits(decimal_nat(n)) == n,
        decimal_nat(n)[0] == '0' ==> n == 0,
        n == 0 ==> decimal_nat(n).len() == 1,
    decreases n,
{
    lemma_digits(n);
    reveal_with_fuel(read_digits, 2);
    if n >= 10 {
        lemma_digits(n / 10);
        lemma_read_back(n / 10);
        assert(decimal_nat(n).drop_last() =~= decimal_nat(n / 10));
        assert(decimal_nat(n)[0] == decimal_nat(n / 10)[0]);
    } else {
        assert(decimal_nat(n).drop_last() =~= Seq::empty());
    }
}

/// A number is written in decimal digits that are read back as that number, without leading zeros,
/// and with a minus sign before them where it is negative.
pub proof fn law_decimal_is_read_back(n: int)
    ensures
        ({
            let digits = if n < 0 {
                decimal(n).subrange(1, decimal(n).len() as int)
            } else {
                decimal(n)
            };
            &&& n < 0 ==> decimal(n).len() > 1 && decimal(n)[0] == '-'
            &&& digits.len() > 0
            &&& forall|i: int|
                0 <= i < digits.len() ==> '0' as int <= #[trigger] digits[i] as int
                    && digits[i] as int <= '9' as int
            &&& read_digits(digits) == if n < 0 {
                -n
            } else {
                n
            }
            &&& digits[0] == '0' ==> n == 0 && digits.len() == 1
        }),
{
    if n < 0 {
        lemma_digits((-n) as nat);
        lemma_read_back((-n) as nat);
        assert(decimal(n).subrange(1, decimal(n).len() as int) =~= decimal_nat((-n) as nat));
    } else {
        lemma_digits(n as nat);
        lemma_read_back(n as nat);
    }
}

/// The name of a batch is the name of its dump, a colon, and the index of its first file in
/// decimal.
pub proof fn law_batch_name_parts(dump: Seq<char>, start: int)
    ensures
        ({
            let name = batch_name(dump, start);
            let n = dump.len() as int;
            &&& name.len() == n + 1 + decimal(start).len()
            &&& name.subrange(0, n) == dump
            &&& name[n] == ':'
            &&& name.subrange(n + 1, name.len() as int) == decimal(start)
        }),
{
    let name = batch_name(dump, start);
    let n = dump.len() as int;
    assert(name.subrange(0, n) =~= dump);
    assert(name.subrange(n + 1, name.len() as int) =~= decimal(start));
}

} // verus!

//! Names of the scratch files that hold a document while `kotlinc` checks it.
use vstd::prelude::*;
use crate::text::{digit_value, digits_value, is_digit, parse_u32, string_of};

verus! {

/// The decimal digit for `d` (0 to 9).
pub open spec fn digit_char(d: int) -> char {
    if d == 0 {
        '0'
    } else if d == 1 {
        '1'
    } else if d == 2 {
        '2'
    } else if d == 3 {
        '3'
    } else if d == 4 {
        '4'
    } else if d == 5 {
        '5'
    } else if d == 6 {
        '6'
    } else if d == 7 {
        '7'
    } else if d == 8 {
        '8'
    } else {
        '9'
    }
}

/// The decimal representation of `n`, as `{}` formats an unsigned integer.
pub open spec fn decimal(n: nat) -> Seq<char>
    decreases n,
{
    if n < 10 {
        seq![digit_char(n as int)]
    } else {
        decimal(n / 10).push(digit_char((n % 10) as int))
    }
}

/// The scratch file name for the `counter`-th check of process `process_id`:
/// `etanol_<process_id>_<counter>.kts`.
pub open spec fn temp_file_name_of(process_id: nat, counter: nat) -> Seq<char> {
    seq!['e', 't', 'a', 'n', 'o', 'l', '_'] + decimal(process_id) + seq!['_'] + decimal(counter) + seq![
        '.',
        'k',
        't',
        's',
    ]
}

fn digit(d: u64) -> (c: char)
    requires
        d < 10,
    ensures
        c == digit_char(d as int),
{
    if d == 0 {
        '0'
    } else if d == 1 {
        '1'
    } else if d == 2 {
        '2'
    } else if d == 3 {
        '3'
    } else if d == 4 {
        '4'
    } else if d == 5 {
        '5'
    } else if d == 6 {
        '6'
    } else if d == 7 {
        '7'
    } else if d == 8 {
        '8'
    } else {
        '9'
    }
}

/// Appends the decimal representation of `n` to `out`.
fn push_decimal(out: &mut Vec<char>, n: u64)
    ensures
        final(out)@ == old(out)@ + decimal(n as nat),
    decreases n,
{
    if n < 10 {
        out.push(digit(n));
        proof {
            assert(decimal(n as nat) =~= seq![digit_char(n as int)]);
        }
    } else {
        push_decimal(out, n / 10);
        out.push(digit(n % 10));
        proof {
            assert(decimal(n as nat) == decimal((n / 10) as nat).push(digit_char((n % 10) as int)));
        }
    }
}

/// The scratch file name for the `counter`-th check of process `process_id`.
pub fn temp_file_name(process_id: u32, counter: u64) -> (name: String)
    ensures
        name@ == temp_file_name_of(process_id as nat, counter as nat),
{
    let mut out: Vec<char> = Vec::new();
    out.push('e');
    out.push('t');
    out.push('a');
    out.push('n');
    out.push('o');
    out.push('l');
    out.push('_');
    push_decimal(&mut out, process_id as u64);
    out.push('_');
    push_decimal(&mut out, counter);
    out.push('.');
    out.push('k');
    out.push('t');
    out.push('s');
    proof {
        assert(out@ =~= temp_file_name_of(process_id as nat, counter as nat));
    }
    string_of(out.as_slice())
}

proof fn lemma_decimal_digits(n: nat)
    ensures
        decimal(n).len() >= 1,
        forall|i: int| 0 <= i < decimal(n).len() ==> #[trigger] decimal(n)[i] != '_' && decimal(n)[i]
            != '.',
    decreases n,
{
    if n >= 10 {
        lemma_decimal_digits(n / 10);
    }
}

proof fn lemma_digit_char_injective(x: int, y: int)
    requires
        0 <= x < 10,
        0 <= y < 10,
        digit_char(x) == digit_char(y),
    ensures
        x == y,
{
}

proof fn lemma_decimal_injective(a: nat, b: nat)
    requires
        decimal(a) == decimal(b),
    ensures
        a == b,
    decreases a,
{
    if a < 10 || b < 10 {
        if a >= 10 {
            lemma_decimal_digits(a / 10);
            assert(decimal(a).len() >= 2);
        } else if b >= 10 {
            lemma_decimal_digits(b / 10);
            assert(decimal(b).len() >= 2);
        } else {
            assert(decimal(a) == seq![digit_char(a as int)]);
            assert(decimal(b) == seq![digit_char(b as int)]);
            assert(decimal(a)[0] == decimal(b)[0]);
            assert(decimal(a)[0] == digit_char(a as int));
            assert(decimal(b)[0] == digit_char(b as int));
            lemma_digit_char_injective(a as int, b as int);
        }
    } else {
        assert(decimal(a) == decimal(a / 10).push(digit_char((a % 10) as int)));
        assert(decimal(b) == decimal(b / 10).push(digit_char((b % 10) as int)));
        assert(decimal(a).last() == decimal(b).last());
        assert(decimal(a).last() == digit_char((a % 10) as int));
        assert(decimal(b).last() == digit_char((b % 10) as int));
        assert(decimal(a).drop_last() =~= decimal(a / 10));
        assert(decimal(b).drop_last() =~= decimal(b / 10));
        lemma_decimal_injective(a / 10, b / 10);
        lemma_digit_char_injective((a % 10) as int, (b % 10) as int);
    }
}

/// Two checks never share a scratch file: distinct process ids or distinct
/// counter values give distinct names.
pub proof fn law_temp_file_names_distinct(pid1: nat, counter1: nat, pid2: nat, counter2: nat)
    requires
        pid1 != pid2 || counter1 != counter2,
    ensures
        temp_file_name_of(pid1, counter1) != temp_file_name_of(pid2, counter2),
{
    let x = temp_file_name_of(pid1, counter1);
    let y = temp_file_name_of(pid2, counter2);
    if x == y {
        let d1 = decimal(pid1);
        let d2 = decimal(pid2);
        let l1 = d1.len() as int;
        let l2 = d2.len() as int;
        lemma_decimal_digits(pid1);
        lemma_decimal_digits(pid2);
        lemma_decimal_digits(counter1);
        lemma_decimal_digits(counter2);
        if l1 < l2 {
            assert(x[7 + l1] == '_');
            assert(y[7 + l1] == d2[l1]);
        } else if l2 < l1 {
            assert(y[7 + l2] == '_');
            assert(x[7 + l2] == d1[l2]);
        } else {
            assert(d1 =~= x.subrange(7, 7 + l1));
            assert(d2 =~= y.subrange(7, 7 + l2));
            lemma_decimal_injective(pid1, pid2);
            let c1 = decimal(counter1);
            let c2 = decimal(counter2);
            let k1 = c1.len() as int;
            let k2 = c2.len() as int;
            assert(x.len() == 8 + l1 + k1 + 4);
            assert(c1 =~= x.subrange(8 + l1, 8 + l1 + k1));
            assert(c2 =~= y.subrange(8 + l2, 8 + l2 + k2));
            lemma_decimal_injective(counter1, counter2);
        }
    }
}


proof fn lemma_decimal_value(n: nat)
    ensures
        digits_value(decimal(n)) == n,
        forall|i: int| 0 <= i < decimal(n).len() ==> is_digit(#[trigger] decimal(n)[i]),
    decreases n,
{
    if n < 10 {
        let d = decimal(n);
        assert(d.drop_last() =~= Seq::<char>::empty());
        assert(d.last() == digit_char(n as int));
        assert(digit_value(digit_char(n as int)) == n);
        assert(digits_value(d.drop_last()) == 0);
        assert(digits_value(d) == digits_value(d.drop_last()) * 10 + digit_value(d.last()));
    } else {
        lemma_decimal_value(n / 10);
        let d = decimal(n);
        assert(d.drop_last() =~= decimal(n / 10));
        assert(d.last() == digit_char((n % 10) as int));
        assert(digit_value(digit_char((n % 10) as int)) == n % 10);
        assert(digits_value(d) == digits_value(d.drop_last()) * 10 + digit_value(d.last()));
        assert((n / 10) * 10 + n % 10 == n);
        assert forall|i: int| 0 <= i < d.len() implies is_digit(#[trigger] d[i]) by {
            if i < d.len() - 1 {
                assert(d[i] == decimal(n / 10)[i]);
            }
        }
    }
}

/// Reading back a number written in decimal, with or without a leading
/// `'+'`, gives the number.
pub proof fn law_parse_decimal_roundtrip(n: u32)
    ensures
        parse_u32(decimal(n as nat)) == Some(n),
        parse_u32(seq!['+'] + decimal(n as nat)) == Some(n),
{
    lemma_decimal_value(n as nat);
    lemma_decimal_digits(n as nat);
    let d = decimal(n as nat);
    assert(d[0] != '+') by {
        assert(is_digit(d[0]));
    }
    assert((seq!['+'] + d).drop_first() =~= d);
}

} // verus!

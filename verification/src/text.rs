//! Rendering numbers and number lists as text, the way `{}` and `{:?}`
//! write them.
use vstd::prelude::*;

verus! {

/// The character of the decimal digit `d`, for `d` below ten.
pub open spec fn digit_char(d: nat) -> char {
    (48 + d) as char
}

/// `n` in decimal, most significant digit first, with no sign, padding or
/// separators: the way `{}` formats an unsigned integer.
pub open spec fn decimal(n: nat) -> Seq<char>
    decreases n,
{
    if n < 10 {
        seq![digit_char(n)]
    } else {
        decimal(n / 10).push(digit_char(n % 10))
    }
}

/// The entries of `s` in decimal, separated by `", "`.
pub open spec fn joined(s: Seq<usize>) -> Seq<char>
    decreases s.len(),
{
    if s.len() == 0 {
        Seq::empty()
    } else if s.len() == 1 {
        decimal(s[0] as nat)
    } else {
        joined(s.drop_last()) + ", "@ + decimal(s.last() as nat)
    }
}

/// `s` as `{:?}` writes a list of unsigned integers: `[1, 2, 3]`.
pub open spec fn list_text(s: Seq<usize>) -> Seq<char> {
    "["@ + joined(s) + "]"@
}

/// The one-character text of the digit `d`.
fn digit_str(d: usize) -> (s: &'static str)
    requires
        d < 10,
    ensures
        s@ == seq![digit_char(d as nat)],
{
    proof {
        reveal_strlit("0");
        reveal_strlit("1");
        reveal_strlit("2");
        reveal_strlit("3");
        reveal_strlit("4");
        reveal_strlit("5");
        reveal_strlit("6");
        reveal_strlit("7");
        reveal_strlit("8");
        reveal_strlit("9");
    }
    match d {
        0 => "0",
        1 => "1",
        2 => "2",
        3 => "3",
        4 => "4",
        5 => "5",
        6 => "6",
        7 => "7",
        8 => "8",
        _ => "9",
    }
}

/// `n` in decimal.
pub fn decimal_string(n: usize) -> (s: String)
    ensures
        s@ == decimal(n as nat),
    decreases n,
{
    if n < 10 {
        String::from_str(digit_str(n))
    } else {
        let mut s = decimal_string(n / 10);
        s.append(digit_str(n % 10));
        s
    }
}

/// Appends `n` in decimal to `s`.
pub fn push_decimal(s: &mut String, n: usize)
    ensures
        final(s)@ == old(s)@ + decimal(n as nat),
{
    let d = decimal_string(n);
    s.append(d.as_str());
}

/// `v` as `{:?}` writes it: `[1, 2, 3]`.
pub fn list_string(v: &Vec<usize>) -> (s: String)
    ensures
        s@ == list_text(v@),
{
    let mut s = String::from_str("[");
    proof {
        reveal_strlit("[");
        reveal_strlit(", ");
        reveal_strlit("]");
    }
    let mut i: usize = 0;
    while i < v.len()
        invariant
            i <= v.len(),
            s@ == "["@ + joined(v@.subrange(0, i as int)),
            "["@ == seq!['['],
            ", "@ == seq![',', ' '],
        decreases v.len() - i,
    {
        let ghost before = s@;
        proof {
            let t = v@.subrange(0, i as int + 1);
            assert(t.drop_last() =~= v@.subrange(0, i as int));
            assert(t.last() == v@[i as int]);
        }
        if i > 0 {
            s.append(", ");
        }
        push_decimal(&mut s, v[i]);
        proof {
            let t = v@.subrange(0, i as int + 1);
            if i == 0 {
                assert(joined(t) == decimal(v@[0] as nat));
                assert(joined(v@.subrange(0, 0)) =~= Seq::<char>::empty());
                assert(s@ =~= "["@ + joined(t));
            } else {
                assert(joined(t) == joined(v@.subrange(0, i as int)) + ", "@ + decimal(v@[i as int] as nat));
                assert(s@ =~= "["@ + joined(t));
            }
        }
        i = i + 1;
    }
    s.append("]");
    proof {
        assert(v@.subrange(0, v.len() as int) =~= v@);
    }
    s
}

} // verus!

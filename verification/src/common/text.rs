//! Rendering numbers, byte strings and text the way Rust's `{}` and `{:?}`
//! formatting renders them, for error messages and file names.
use vstd::prelude::*;
use vstd::string::*;

verus! {

/// The decimal digits.
pub open spec fn digit_char(d: int) -> char {
    seq!['0', '1', '2', '3', '4', '5', '6', '7', '8', '9'][d]
}

/// Decimal rendering of `n`, as `{}` prints an unsigned integer.
pub open spec fn decimal(n: nat) -> Seq<char>
    decreases n,
{
    if n < 10 {
        seq![digit_char(n as int)]
    } else {
        decimal(n / 10).push(digit_char((n % 10) as int))
    }
}

/// `n` rendered in decimal and padded with zeros on the left to at least
/// `width` characters, as `{:0width$}` prints it.
pub open spec fn zero_padded(n: nat, width: nat) -> Seq<char> {
    let d = decimal(n);
    if d.len() >= width {
        d
    } else {
        Seq::new((width - d.len()) as nat, |i: int| '0') + d
    }
}

/// How `{:?}` renders a string: quoted, with the characters that Rust's
/// `Debug` for `str` escapes written as their escapes.
pub uninterp spec fn debug_text(s: Seq<char>) -> Seq<char>;

/// How `{:?}` renders the items of a byte list, without the brackets.
pub open spec fn byte_list(bs: Seq<u8>) -> Seq<char>
    decreases bs.len(),
{
    if bs.len() == 0 {
        Seq::empty()
    } else if bs.len() == 1 {
        decimal(bs[0] as nat)
    } else {
        byte_list(bs.drop_last()) + seq![',', ' '] + decimal(bs.last() as nat)
    }
}

/// How `{:?}` renders a `Vec<u8>` or `[u8]`.
pub open spec fn debug_bytes(bs: Seq<u8>) -> Seq<char> {
    seq!['['] + byte_list(bs) + seq![']']
}

/// How `{:?}` renders an `Option<u64>`.
pub open spec fn debug_opt_u64(v: Option<u64>) -> Seq<char> {
    match v {
        Some(n) => seq!['S', 'o', 'm', 'e', '('] + decimal(n as nat) + seq![')'],
        None => seq!['N', 'o', 'n', 'e'],
    }
}

/// How `{:?}` renders an `Option<String>`.
pub open spec fn debug_opt_text(v: Option<Seq<char>>) -> Seq<char> {
    match v {
        Some(t) => seq!['S', 'o', 'm', 'e', '('] + debug_text(t) + seq![')'],
        None => seq!['N', 'o', 'n', 'e'],
    }
}

/// The one-character string of a digit.
fn digit_str(d: u32) -> (r: &'static str)
    requires
        d < 10,
    ensures
        r@ == seq![digit_char(d as int)],
{
    proof {
        reveal_strlit("0");
        reveal_strlit("1");
        reveal_strlit("2");
        reveal_strlit("3");
        reveal_strlit("4");
        reveal_strlit("5");
        reveal_strlit("6");
        reveal_strlit("7");
        reveal_strlit("8");
        reveal_strlit("9");
    }
    let r = match d {
        0 => "0",
        1 => "1",
        2 => "2",
        3 => "3",
        4 => "4",
        5 => "5",
        6 => "6",
        7 => "7",
        8 => "8",
        _ => "9",
    };
    assert(r@ =~= seq![digit_char(d as int)]);
    r
}

/// Appends the decimal rendering of `n`.
pub fn push_decimal(s: &mut String, n: u64)
    ensures
        final(s)@ == old(s)@ + decimal(n as nat),
    decreases n,
{
    if n >= 10 {
        push_decimal(s, n / 10);
    }
    s.append(digit_str((n % 10) as u32));
    assert(s@ =~= old(s)@ + decimal(n as nat));
}

/// Appends `n` in decimal, zero-padded to at least `width` characters.
pub fn push_zero_padded(s: &mut String, n: u64, width: usize)
    ensures
        final(s)@ == old(s)@ + zero_padded(n as nat, width as nat),
{
    let mut digits = String::new();
    push_decimal(&mut digits, n);
    assert(digits@ =~= decimal(n as nat));
    let d = digits.as_str().unicode_len();
    let mut i = d;
    while i < width
        invariant
            d == decimal(n as nat).len(),
            d <= i,
            i <= width || i == d,
            s@ == old(s)@ + Seq::new((i - d) as nat, |k: int| '0'),
        decreases width - i,
    {
        proof {
            reveal_strlit("0");
        }
        s.append("0");
        assert(s@ =~= old(s)@ + Seq::new((i + 1 - d) as nat, |k: int| '0'));
        i = i + 1;
    }
    s.append(digits.as_str());
    assert(s@ =~= old(s)@ + zero_padded(n as nat, width as nat));
}

/// Calls std's `Debug` for `str` (`format!("{:?}", t)`); claimed: the text
/// it renders depends on `t` alone. Which characters it escapes, and how,
/// follows the Unicode tables of the standard library and is left unsaid.
#[verifier::external_body]
fn debug_str(t: &str) -> (r: String)
    ensures
        r@ == debug_text(t@),
{
    format!("{:?}", t)
}

/// Appends the bytes `bs` as `{:?}` renders a byte list.
pub fn push_debug_bytes(s: &mut String, bs: &[u8])
    ensures
        final(s)@ == old(s)@ + debug_bytes(bs@),
{
    proof {
        reveal_strlit("[");
        reveal_strlit("]");
        reveal_strlit(", ");
    }
    s.append("[");
    let mut i: usize = 0;
    while i < bs.len()
        invariant
            i <= bs@.len(),
            s@ == old(s)@ + seq!['['] + byte_list(bs@.subrange(0, i as int)),
        decreases bs@.len() - i,
    {
        proof {
            reveal_strlit(", ");
        }
        assert(bs@.subrange(0, i + 1).drop_last() =~= bs@.subrange(0, i as int));
        assert(bs@.subrange(0, i + 1).last() == bs@[i as int]);
        if i > 0 {
            s.append(", ");
        }
        push_decimal(s, bs[i] as u64);
        assert(s@ =~= old(s)@ + seq!['['] + byte_list(bs@.subrange(0, i + 1)));
        i = i + 1;
    }
    assert(bs@.subrange(0, bs@.len() as int) =~= bs@);
    s.append("]");
    assert(s@ =~= old(s)@ + debug_bytes(bs@));
}

/// Appends `v` as `{:?}` renders an `Option<u64>`.
pub fn push_debug_opt_u64(s: &mut String, v: Option<u64>)
    ensures
        final(s)@ == old(s)@ + debug_opt_u64(v),
{
    proof {
        reveal_strlit("Some(");
        reveal_strlit(")");
        reveal_strlit("None");
    }
    match v {
        Some(n) => {
            s.append("Some(");
            push_decimal(s, n);
            s.append(")");
        },
        None => {
            s.append("None");
        },
    }
    assert(s@ =~= old(s)@ + debug_opt_u64(v));
}

/// Appends `v` as `{:?}` renders an `Option<String>`.
pub fn push_debug_opt_text(s: &mut String, v: &Option<String>)
    ensures
        final(s)@ == old(s)@ + debug_opt_text(
            match v {
                Some(t) => Some(t@),
                None => None,
            },
        ),
{
    proof {
        reveal_strlit("Some(");
        reveal_strlit(")");
        reveal_strlit("None");
    }
    match v {
        Some(t) => {
            s.append("Some(");
            let d = debug_str(t.as_str());
            s.append(d.as_str());
            s.append(")");
        },
        None => {
            s.append("None");
        },
    }
    assert(s@ =~= old(s)@ + debug_opt_text(
        match v {
            Some(t) => Some(t@),
            None => None,
        },
    ));
}

} // verus!

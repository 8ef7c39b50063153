use vstd::prelude::*;
use vstd::string::StringExecFns;


verus! {

/// `num / den` rounded to the nearest integer, halves to the even one.
pub open spec fn round_div(num: nat, den: nat) -> nat {
    let q = num / den;
    let r = num % den;
    if 2 * r > den || (2 * r == den && q % 2 == 1) {
        q + 1
    } else {
        q
    }
}

/// `num / den` rounded to nearest, halves to even.
pub fn round_div_exec(num: u128, den: u128) -> (r: u128)
    requires
        den > 0,
        num / den < u128::MAX,
    ensures
        r == round_div(num as nat, den as nat),
{
    let q = num / den;
    let r = num % den;
    if r > den - r || (r == den - r && q % 2 == 1) {
        q + 1
    } else {
        q
    }
}

/// The decimal digit character of `d`, for `d` below ten.
pub open spec fn digit_char(d: nat) -> char {
    if d == 0 {
        '0'
    } else if d == 1 {
        '1'
    } else if d == 2 {
        '2'
    } else if d == 3 {
        '3'
    } else if d == 4 {
        '4'
    } else if d == 5 {
        '5'
    } else if d == 6 {
        '6'
    } else if d == 7 {
        '7'
    } else if d == 8 {
        '8'
    } else {
        '9'
    }
}

/// The decimal digits of `n`, without leading zeros.
pub open spec fn decimal(n: nat) -> Seq<char>
    decreases n,
{
    if n < 10 {
        seq![digit_char(n)]
    } else {
        decimal(n / 10).push(digit_char(n % 10))
    }
}

pub const KIB: u64 = 1024;
pub const MIB: u64 = 1048576;
pub const GIB: u64 = 1073741824;
pub const TIB: u64 = 1099511627776;

/// The step of the largest unit, up to TB, that is not larger than `n`;
/// 0 for bytes.
pub open spec fn unit_of(n: nat) -> nat {
    if n >= TIB {
        4
    } else if n >= GIB {
        3
    } else if n >= MIB {
        2
    } else if n >= KIB {
        1
    } else {
        0
    }
}

/// The number of bytes in one unit of step `k`.
pub open spec fn unit_scale(k: nat) -> nat {
    if k == 4 {
        TIB as nat
    } else if k == 3 {
        GIB as nat
    } else if k == 2 {
        MIB as nat
    } else if k == 1 {
        KIB as nat
    } else {
        1
    }
}

/// The symbol of the unit of step `k`.
pub open spec fn unit_name(k: nat) -> Seq<char> {
    if k == 4 {
        seq!['T', 'B']
    } else if k == 3 {
        seq!['G', 'B']
    } else if k == 2 {
        seq!['M', 'B']
    } else if k == 1 {
        seq!['K', 'B']
    } else {
        seq!['B']
    }
}

/// A byte count for people: bytes as a whole number, larger counts in the
/// largest binary unit (KB, MB, GB, TB) that they reach, with one decimal,
/// rounded to nearest, halves to even.
pub open spec fn size_text(n: nat) -> Seq<char> {
    let k = unit_of(n);
    if k == 0 {
        decimal(n) + seq![' ', 'B']
    } else {
        let t = round_div(n * 10, unit_scale(k));
        decimal(t / 10) + seq!['.', digit_char(t % 10), ' '] + unit_name(k)
    }
}

fn digit_str(d: u64) -> (s: &'static str)
    requires
        d < 10,
    ensures
        s@ == seq![digit_char(d as nat)],
{
    if d == 0 {
        proof {
            reveal_strlit("0");
        }
        "0"
    } else if d == 1 {
        proof {
            reveal_strlit("1");
        }
        "1"
    } else if d == 2 {
        proof {
            reveal_strlit("2");
        }
        "2"
    } else if d == 3 {
        proof {
            reveal_strlit("3");
        }
        "3"
    } else if d == 4 {
        proof {
            reveal_strlit("4");
        }
        "4"
    } else if d == 5 {
        proof {
            reveal_strlit("5");
        }
        "5"
    } else if d == 6 {
        proof {
            reveal_strlit("6");
        }
        "6"
    } else if d == 7 {
        proof {
            reveal_strlit("7");
        }
        "7"
    } else if d == 8 {
        proof {
            reveal_strlit("8");
        }
        "8"
    } else {
        proof {
            reveal_strlit("9");
        }
        "9"
    }
}

/// Appends the decimal digits of `n` to `s`.
fn push_decimal(s: &mut String, n: u64)
    ensures
        final(s)@ == old(s)@ + decimal(n as nat),
    decreases n,
{
    if n >= 10 {
        push_decimal(s, n / 10);
    }
    s.append(digit_str(n % 10));
    proof {
        assert(final(s)@ =~= old(s)@ + decimal(n as nat));
    }
}

/// Writes a byte count for people, as `size_text` says: "0 B", "1.5 KB",
/// "1.0 GB".
pub fn format_size(size: u64) -> (r: String)
    ensures
        r@ == size_text(size as nat),
{
    let mut s = String::new();
    if size < KIB {
        push_decimal(&mut s, size);
        proof {
            reveal_strlit(" B");
        }
        s.append(" B");
        proof {
            assert(s@ =~= size_text(size as nat));
        }
        return s;
    }
    let (scale, unit): (u64, &str) = if size >= TIB {
        proof {
            reveal_strlit("TB");
        }
        (TIB, "TB")
    } else if size >= GIB {
        proof {
            reveal_strlit("GB");
        }
        (GIB, "GB")
    } else if size >= MIB {
        proof {
            reveal_strlit("MB");
        }
        (MIB, "MB")
    } else {
        proof {
            reveal_strlit("KB");
        }
        (KIB, "KB")
    };
    let ghost k = unit_of(size as nat);
    proof {
        assert(scale == unit_scale(k) && unit@ == unit_name(k));
        assert((size as int) * 10 <= u128::MAX) by (nonlinear_arith)
            requires
                size <= u64::MAX,
        ;
        assert((size as int) * 10 / (scale as int) < u64::MAX) by (nonlinear_arith)
            requires
                size <= u64::MAX,
                scale >= 1024,
        ;
    }
    let t = round_div_exec((size as u128) * 10, scale as u128);
    let t = t as u64;
    push_decimal(&mut s, t / 10);
    proof {
        reveal_strlit(".");
        reveal_strlit(" ");
    }
    s.append(".");
    s.append(digit_str(t % 10));
    s.append(" ");
    s.append(unit);
    proof {
        assert(s@ =~= size_text(size as nat));
    }
    s
}

} // verus!

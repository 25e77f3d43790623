//! Human-readable rendering of byte counts: one decimal digit and the
//! largest binary unit (B, KB, MB, GB, TB) that fits, with ties rounded
//! half away from zero.

use vstd::prelude::*;

use crate::decimal::dec_str;
use crate::decimal::digit_char;
use crate::decimal::digit_of;
use crate::decimal::push_dec;

verus! {

/// `1024^e`.
pub open spec fn pow1024(e: nat) -> nat
    decreases e,
{
    if e == 0 {
        1
    } else {
        1024 * pow1024((e - 1) as nat)
    }
}

/// The unit exponent used for a positive byte count, capped at TB.
pub open spec fn size_exp(b: nat) -> nat {
    if b >= pow1024(4) {
        4
    } else if b >= pow1024(3) {
        3
    } else if b >= pow1024(2) {
        2
    } else if b >= pow1024(1) {
        1
    } else {
        0
    }
}

/// The unit suffix for each exponent.
pub open spec fn unit_str(e: nat) -> Seq<char> {
    if e == 0 {
        "B"@
    } else if e == 1 {
        "KB"@
    } else if e == 2 {
        "MB"@
    } else if e == 3 {
        "GB"@
    } else {
        "TB"@
    }
}

/// Tenths of the chosen unit, rounded half away from zero.
pub open spec fn size_tenths(b: nat) -> nat {
    let den = pow1024(size_exp(b));
    ((10 * b + den / 2) / den) as nat
}

/// The rendered form of a byte count: `0 B` for zero, a minus sign and
/// whole bytes for negative counts, otherwise `<whole>.<tenth> <unit>`.
pub open spec fn format_size(b: int) -> Seq<char> {
    if b == 0 {
        "0 B"@
    } else if b < 0 {
        seq!['-'] + dec_str((-b) as nat) + ".0 B"@
    } else {
        let t = size_tenths(b as nat);
        dec_str(t / 10) + seq!['.'] + seq![digit_char(t % 10)] + seq![' '] + unit_str(
            size_exp(b as nat),
        )
    }
}

/// Renders a byte count for humans, e.g. `1.0 KB` for 1024.
pub fn format_file_size(bytes: i64) -> (r: String)
    ensures
        r@ == format_size(bytes as int),
{
    if bytes == 0 {
        return "0 B".to_owned();
    }
    if bytes < 0 {
        let mag: u64 = (-(bytes as i128)) as u64;
        let mut out = String::new();
        out.push('-');
        push_dec(&mut out, mag);
        out.append(".0 B");
        proof {
            assert(Seq::<char>::empty().push('-') =~= seq!['-']);
            assert((seq!['-'] + dec_str(mag as nat)) + ".0 B"@ =~= seq!['-'] + dec_str(
                mag as nat,
            ) + ".0 B"@);
        }
        return out;
    }
    let mag: u64 = bytes as u64;
    let e: u64 = if mag >= 1024 * 1024 * 1024 * 1024 {
        4
    } else if mag >= 1024 * 1024 * 1024 {
        3
    } else if mag >= 1024 * 1024 {
        2
    } else if mag >= 1024 {
        1
    } else {
        0
    };
    let den: u64 = if e == 4 {
        1024 * 1024 * 1024 * 1024
    } else if e == 3 {
        1024 * 1024 * 1024
    } else if e == 2 {
        1024 * 1024
    } else if e == 1 {
        1024
    } else {
        1
    };
    proof {
        assert(pow1024(0) == 1);
        assert(pow1024(1) == 1024);
        assert(pow1024(2) == 0x100000);
        assert(pow1024(3) == 0x40000000);
        assert(pow1024(4) == 0x10000000000);
        assert(e as nat == size_exp(mag as nat));
        assert(den as nat == pow1024(size_exp(mag as nat)));
    }
    let wide: u128 = (10 * (mag as u128) + (den as u128) / 2) / (den as u128);
    proof {
        assert(wide == size_tenths(mag as nat)) by {
            assert((10 * (mag as u128) + (den as u128) / 2) as int == 10 * (mag as int) + (
            den as int) / 2);
        }
        assert(wide <= u64::MAX) by {
            if e == 0 {
                assert(mag < 1024);
            } else {
                assert(den >= 1024);
                assert((10 * (mag as int) + (den as int) / 2) / (den as int) <= (10 * (
                mag as int) + (den as int) / 2) / 1024) by (nonlinear_arith)
                    requires
                        den >= 1024,
                        mag >= 0,
                ;
            }
        }
    }
    let t: u64 = wide as u64;
    let mut out = String::new();
    push_dec(&mut out, t / 10);
    out.push('.');
    out.push(digit_of(t % 10));
    out.push(' ');
    let unit: &str = if e == 4 {
        "TB"
    } else if e == 3 {
        "GB"
    } else if e == 2 {
        "MB"
    } else if e == 1 {
        "KB"
    } else {
        "B"
    };
    out.append(unit);
    proof {
        assert(out@ =~= dec_str((t / 10) as nat) + seq!['.'] + seq![digit_char((t % 10) as nat)]
            + seq![' '] + unit_str(size_exp(mag as nat)));
    }
    out
}

} // verus!

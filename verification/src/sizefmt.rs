use vstd::prelude::*;

use crate::decimal::dec_str;
use crate::decimal::digit_char;
use crate::decimal::digit_exec;
use crate::decimal::push_decimal;
use crate::text::push_char;

verus! {

/// A count of tenths rendered with one decimal place: `15` becomes `1.5`.
pub open spec fn tenths_str(t: int) -> Seq<char>
    recommends
        t >= 0,
{
    dec_str(t / 10) + seq!['.'] + seq![digit_char(t % 10)]
}

/// A byte count in tenths of the given unit, rounded to the nearest tenth
/// with an exact tie rounded to the even neighbour, as decimal formatting
/// of the exact quotient rounds.
pub open spec fn rounded_tenths(bytes: int, unit: int) -> int
    recommends
        bytes >= 0,
        unit >= 2,
{
    let q = (bytes * 10) / unit;
    let r = (bytes * 10) % unit;
    if 2 * r > unit {
        q + 1
    } else if 2 * r < unit {
        q
    } else if q % 2 == 0 {
        q
    } else {
        q + 1
    }
}

/// A byte count rendered with one decimal place in the largest binary-prefix
/// unit (B, KB, MB, GB at a 1024 divisor) in which it is below one of the
/// next unit up.
pub open spec fn spec_format_size(bytes: int) -> Seq<char>
    recommends
        bytes >= 0,
{
    if bytes < 1024 {
        tenths_str(bytes * 10) + seq!['B']
    } else if bytes < 1048576 {
        tenths_str(rounded_tenths(bytes, 1024)) + seq!['K', 'B']
    } else if bytes < 1073741824 {
        tenths_str(rounded_tenths(bytes, 1048576)) + seq!['M', 'B']
    } else {
        tenths_str(rounded_tenths(bytes, 1073741824)) + seq!['G', 'B']
    }
}

/// Appends `t` tenths with one decimal place.
fn push_tenths(out: &mut String, t: u64)
    ensures
        final(out)@ == old(out)@ + tenths_str(t as int),
{
    push_decimal(out, t / 10);
    push_char(out, '.');
    let c = digit_exec(t % 10);
    push_char(out, c);
    proof {
        assert(out@ =~= old(out)@ + tenths_str(t as int));
    }
}

/// Renders a byte count for display, with one decimal place in the largest
/// fitting binary-prefix unit.
pub fn format_size(bytes: usize) -> (r: String)
    ensures
        r@ == spec_format_size(bytes as int),
{
    let mut out = String::new();
    if bytes < 1024 {
        let t: u64 = (bytes as u64) * 10;
        push_tenths(&mut out, t);
        push_char(&mut out, 'B');
        proof {
            assert(out@ =~= spec_format_size(bytes as int));
        }
    } else if bytes < 1048576 {
        let prod: u64 = (bytes as u64) * 10;
        let q: u64 = prod / 1024;
        let r: u64 = prod % 1024;
        let t: u64 = if 2 * r > 1024 {
            q + 1
        } else if 2 * r < 1024 {
            q
        } else if q % 2 == 0 {
            q
        } else {
            q + 1
        };
        proof {
            assert(t as int == rounded_tenths(bytes as int, 1024));
        }
        push_tenths(&mut out, t);
        push_char(&mut out, 'K');
        push_char(&mut out, 'B');
        proof {
            assert(out@ =~= spec_format_size(bytes as int));
        }
    } else if bytes < 1073741824 {
        let prod: u64 = (bytes as u64) * 10;
        let q: u64 = prod / 1048576;
        let r: u64 = prod % 1048576;
        let t: u64 = if 2 * r > 1048576 {
            q + 1
        } else if 2 * r < 1048576 {
            q
        } else if q % 2 == 0 {
            q
        } else {
            q + 1
        };
        proof {
            assert(t as int == rounded_tenths(bytes as int, 1048576));
        }
        push_tenths(&mut out, t);
        push_char(&mut out, 'M');
        push_char(&mut out, 'B');
        proof {
            assert(out@ =~= spec_format_size(bytes as int));
        }
    } else {
        let prod: u128 = (bytes as u128) * 10;
        let q128: u128 = prod / 1073741824;
        let r128: u128 = prod % 1073741824;
        proof {
            assert(q128 < u64::MAX) by {
                assert(prod <= (u64::MAX as u128) * 10);
                assert((u64::MAX as int) * 10 <= (u64::MAX as int - 1) * 1073741824);
                vstd::arithmetic::div_mod::lemma_div_is_ordered(
                    prod as int,
                    (u64::MAX as int - 1) * 1073741824,
                    1073741824,
                );
                vstd::arithmetic::div_mod::lemma_div_multiples_vanish(
                    u64::MAX as int - 1,
                    1073741824,
                );
            }
        }
        let q: u64 = q128 as u64;
        let r: u64 = r128 as u64;
        let t: u64 = if 2 * r > 1073741824 {
            q + 1
        } else if 2 * r < 1073741824 {
            q
        } else if q % 2 == 0 {
            q
        } else {
            q + 1
        };
        proof {
            assert(t as int == rounded_tenths(bytes as int, 1073741824));
        }
        push_tenths(&mut out, t);
        push_char(&mut out, 'G');
        push_char(&mut out, 'B');
        proof {
            assert(out@ =~= spec_format_size(bytes as int));
        }
    }
    out
}

} // verus!

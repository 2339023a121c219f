//! Rendering numbers as decimal text: plain unsigned integers, zero-padded
//! fields, cell centroids held as fixed-point halves of millionths, and
//! elapsed times as `H:MM:SS`.

use vstd::prelude::*;

verus! {

pub const COLON: u8 = 58;

/// The decimal digits of a nonnegative number, most significant first.
pub open spec fn spec_digits_of(v: int) -> Seq<u8>
    decreases v,
{
    if v < 10 {
        seq![(48 + if v >= 0 {
            v
        } else {
            0
        }) as u8]
    } else {
        spec_digits_of(v / 10).push((48 + v % 10) as u8)
    }
}

/// The last `n` decimal digits of a nonnegative number, zero padded.
pub open spec fn spec_pad_digits(v: int, n: nat) -> Seq<u8>
    decreases n,
{
    if n == 0 {
        Seq::empty()
    } else {
        spec_pad_digits(v / 10, (n - 1) as nat).push((48 + v % 10) as u8)
    }
}

/// A digit string with its trailing zeros removed.
pub open spec fn spec_trim_zeros(s: Seq<u8>) -> Seq<u8>
    decreases s.len(),
{
    if s.len() > 0 && s.last() == 48 {
        spec_trim_zeros(s.drop_last())
    } else {
        s
    }
}

/// Renders an unsigned integer as decimal digits.
pub fn render_u64(v: u64) -> (r: Vec<u8>)
    ensures
        r@ == spec_digits_of(v as int),
        r@.len() >= 1,
    decreases v,
{
    if v < 10 {
        let mut r: Vec<u8> = Vec::new();
        r.push((48 + v) as u8);
        proof {
            assert(r@ =~= spec_digits_of(v as int));
        }
        r
    } else {
        let mut r = render_u64(v / 10);
        r.push((48 + v % 10) as u8);
        r
    }
}

/// Renders the last `n` decimal digits of `v`, zero padded to width `n`.
pub fn render_padded(v: u64, n: usize) -> (r: Vec<u8>)
    ensures
        r@ == spec_pad_digits(v as int, n as nat),
    decreases n,
{
    if n == 0 {
        let r: Vec<u8> = Vec::new();
        proof {
            assert(r@ =~= spec_pad_digits(v as int, 0));
        }
        r
    } else {
        let mut r = render_padded(v / 10, n - 1);
        r.push((48 + v % 10) as u8);
        r
    }
}

/// Centroid coordinates are carried as an integer count of half-millionths,
/// so a whole value `n2` stands for the coordinate `n2 / 2_000_000`. This
/// spec gives its exact decimal rendering: optional sign, integer part, and
/// a fractional part with trailing zeros trimmed.
pub open spec fn spec_render_half_millionths(n2: int) -> Seq<u8> {
    let a = if n2 < 0 {
        -n2
    } else {
        n2
    };
    let ip = a / 2000000;
    let fr = a % 2000000;
    (if n2 < 0 {
        seq![crate::parse::MINUS]
    } else {
        Seq::<u8>::empty()
    }).add(spec_digits_of(ip)).add(
        if fr == 0 {
            Seq::<u8>::empty()
        } else {
            seq![crate::parse::DOT].add(spec_trim_zeros(spec_pad_digits(fr * 5, 7)))
        },
    )
}

/// Renders a coordinate held as half-millionths as exact decimal text.
pub fn render_half_millionths(n2: i128) -> (r: Vec<u8>)
    requires
        -27670116110564327424 <= n2 <= 27670116110564327424,
    ensures
        r@ == spec_render_half_millionths(n2 as int),
{
    let neg = n2 < 0;
    let a: u128 = if n2 < 0 {
        (-n2) as u128
    } else {
        n2 as u128
    };
    let ghost ga = a as int;
    proof {
        vstd::arithmetic::div_mod::lemma_div_is_ordered(
            ga,
            27670116110564327424,
            2000000,
        );
        vstd::arithmetic::div_mod::lemma_mod_division_less_than_divisor(ga, 2000000);
        vstd::arithmetic::div_mod::lemma_div_pos_is_pos(ga, 2000000);
    }
    let ip: u64 = (a / 2000000) as u64;
    let fr: u64 = (a % 2000000) as u64;
    let mut out: Vec<u8> = Vec::new();
    if neg {
        out.push(crate::parse::MINUS);
    }
    let mut d = render_u64(ip);
    out.append(&mut d);
    if fr != 0 {
        out.push(crate::parse::DOT);
        let mut f = render_padded(fr * 5, 7);
        let ghost padded = f@;
        while f.len() > 0 && f[f.len() - 1] == 48
            invariant
                spec_trim_zeros(f@) == spec_trim_zeros(padded),
            decreases f@.len(),
        {
            f.pop();
        }
        proof {
            assert(spec_trim_zeros(f@) == f@);
        }
        out.append(&mut f);
    }
    proof {
        assert(out@ =~= spec_render_half_millionths(n2 as int));
    }
    out
}

/// The elapsed-time rendering `H:MM:SS` of a duration in whole seconds.
pub open spec fn spec_format_duration(t: int) -> Seq<u8> {
    spec_digits_of(t / 3600).add(seq![COLON]).add(spec_pad_digits((t % 3600) / 60, 2)).add(
        seq![COLON],
    ).add(spec_pad_digits(t % 60, 2))
}

/// Renders a duration of whole seconds as `H:MM:SS`.
pub fn format_duration(total_seconds: u64) -> (r: Vec<u8>)
    ensures
        r@ == spec_format_duration(total_seconds as int),
{
    let hours = total_seconds / 3600;
    let minutes = (total_seconds % 3600) / 60;
    let seconds = total_seconds % 60;
    let mut out = render_u64(hours);
    out.push(COLON);
    let mut m = render_padded(minutes, 2);
    out.append(&mut m);
    out.push(COLON);
    let mut s = render_padded(seconds, 2);
    out.append(&mut s);
    proof {
        assert(out@ =~= spec_format_duration(total_seconds as int));
    }
    out
}

} // verus!

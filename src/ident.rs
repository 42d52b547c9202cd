//! Stable identifiers of locations and of depth levels: fixed-point values
//! written with exactly three decimals, joined by underscores.
use vstd::prelude::*;

verus! {

/// The character of decimal digit `d`.
pub open spec fn digit_char(d: int) -> char {
    if d == 0 {
        '0'
    } else if d == 1 {
        '1'
    } else if d == 2 {
        '2'
    } else if d == 3 {
        '3'
    } else if d == 4 {
        '4'
    } else if d == 5 {
        '5'
    } else if d == 6 {
        '6'
    } else if d == 7 {
        '7'
    } else if d == 8 {
        '8'
    } else {
        '9'
    }
}

/// `n` in decimal, without leading zeros.
pub open spec fn decimal(n: nat) -> Seq<char>
    decreases n,
{
    if n < 10 {
        seq![digit_char(n as int)]
    } else {
        decimal(n / 10).push(digit_char((n % 10) as int))
    }
}

/// A value in thousandths written as a decimal number with three digits
/// after the point, a minus sign in front of negative values.
pub open spec fn fixed3(m: int) -> Seq<char> {
    let a: nat = if m < 0 {
        (-m) as nat
    } else {
        m as nat
    };
    let sign = if m < 0 {
        seq!['-']
    } else {
        Seq::<char>::empty()
    };
    sign + decimal(a / 1000) + seq![
        '.',
        digit_char(((a / 100) % 10) as int),
        digit_char(((a / 10) % 10) as int),
        digit_char((a % 10) as int),
    ]
}

/// The identifier of the location at (`lon`, `lat`).
pub open spec fn location_key(lon: int, lat: int) -> Seq<char> {
    fixed3(lon) + seq!['_'] + fixed3(lat)
}

/// Relies on `String::push`: the character is appended at the end.
#[verifier::external_body]
fn push_char(s: &mut String, c: char)
    ensures
        final(s)@ == old(s)@.push(c),
{
    s.push(c);
}

fn digit(d: u64) -> (c: char)
    requires
        d < 10,
    ensures
        c == digit_char(d as int),
{
    if d == 0 {
        '0'
    } else if d == 1 {
        '1'
    } else if d == 2 {
        '2'
    } else if d == 3 {
        '3'
    } else if d == 4 {
        '4'
    } else if d == 5 {
        '5'
    } else if d == 6 {
        '6'
    } else if d == 7 {
        '7'
    } else if d == 8 {
        '8'
    } else {
        '9'
    }
}

fn push_decimal(s: &mut String, n: u64)
    ensures
        final(s)@ == old(s)@ + decimal(n as nat),
    decreases n,
{
    if n < 10 {
        push_char(s, digit(n));
        assert(s@ == old(s)@ + decimal(n as nat));
    } else {
        push_decimal(s, n / 10);
        push_char(s, digit(n % 10));
        assert(s@ == old(s)@ + decimal(n as nat));
    }
}

fn push_fixed3(s: &mut String, m: i64)
    ensures
        final(s)@ == old(s)@ + fixed3(m as int),
{
    let a: u64 = if m < 0 {
        (0 - (m as i128)) as u64
    } else {
        m as u64
    };
    if m < 0 {
        push_char(s, '-');
    }
    push_decimal(s, a / 1000);
    push_char(s, '.');
    push_char(s, digit((a / 100) % 10));
    push_char(s, digit((a / 10) % 10));
    push_char(s, digit(a % 10));
    assert(s@ == old(s)@ + fixed3(m as int));
}

/// The identifier of the location at longitude `lon` and latitude `lat`,
/// both in millidegrees: `"<lon>_<lat>"`, each with three decimals.
pub fn format_location_id(lon: i64, lat: i64) -> (r: String)
    ensures
        r@ == location_key(lon as int, lat as int),
{
    let mut s = String::new();
    push_fixed3(&mut s, lon);
    push_char(&mut s, '_');
    push_fixed3(&mut s, lat);
    assert(s@ == location_key(lon as int, lat as int));
    s
}

/// The identifier of the depth level `depth` (in millimetres) at a location:
/// `"<lon>_<lat>_<depth>"`, each with three decimals.
pub fn format_level_id(lon: i64, lat: i64, depth: i64) -> (r: String)
    ensures
        r@ == location_key(lon as int, lat as int) + seq!['_'] + fixed3(depth as int),
{
    let mut s = format_location_id(lon, lat);
    push_char(&mut s, '_');
    push_fixed3(&mut s, depth);
    s
}

} // verus!

use vstd::arithmetic::div_mod::lemma_div_is_ordered;
use vstd::arithmetic::div_mod::lemma_div_is_ordered_by_denominator;
use vstd::prelude::*;

verus! {

pub const KIB: u64 = 1024;

pub const MIB: u64 = 1048576;

pub const GIB: u64 = 1073741824;

/// The decimal digit character for a value below ten.
pub open spec fn digit_char(d: nat) -> char {
    if d == 0 {
        '0'
    } else if d == 1 {
        '1'
    } else if d == 2 {
        '2'
    } else if d == 3 {
        '3'
    } else if d == 4 {
        '4'
    } else if d == 5 {
        '5'
    } else if d == 6 {
        '6'
    } else if d == 7 {
        '7'
    } else if d == 8 {
        '8'
    } else {
        '9'
    }
}

/// The decimal representation of a natural number, most significant
/// digit first, with no leading zeros (a lone zero for 0).
pub open spec fn dec_rep(n: nat) -> Seq<char>
    decreases n,
{
    if n < 10 {
        seq![digit_char(n)]
    } else {
        dec_rep(n / 10).push(digit_char(n % 10))
    }
}

/// `num / den`, rounded to the nearest integer; ties go to the even
/// neighbour, as the usual binary-to-decimal display rounding does.
pub open spec fn round_nearest_even(num: nat, den: nat) -> nat {
    let q = num / den;
    let r = num % den;
    if 2 * r < den {
        q
    } else if 2 * r > den {
        q + 1
    } else if q % 2 == 0 {
        q
    } else {
        q + 1
    }
}

/// A count of hundredths rendered with two decimal places: `625` becomes
/// `6.25`.
pub open spec fn hundredths_rep(h: nat) -> Seq<char> {
    dec_rep(h / 100) + "."@ + seq![digit_char((h % 100) / 10), digit_char((h % 100) % 10)]
}

/// A byte count rendered for the report: scaled to the largest of GB,
/// MB or KB that fits, with two decimal places, or as a plain count of
/// bytes below 1 KB.
pub open spec fn spec_format_size(size: u64) -> Seq<char> {
    if size >= GIB {
        hundredths_rep(round_nearest_even((size as nat) * 100, GIB as nat)) + " GB"@
    } else if size >= MIB {
        hundredths_rep(round_nearest_even((size as nat) * 100, MIB as nat)) + " MB"@
    } else if size >= KIB {
        hundredths_rep(round_nearest_even((size as nat) * 100, KIB as nat)) + " KB"@
    } else {
        dec_rep(size as nat) + " Bytes"@
    }
}

/// A path rendered for the report: unchanged up to fifty characters,
/// otherwise its first and last twenty characters around an ellipsis.
pub open spec fn spec_format_path(p: Seq<char>) -> Seq<char> {
    if p.len() <= 50 {
        p
    } else {
        p.subrange(0, 20) + "..."@ + p.subrange(p.len() - 20, p.len() as int)
    }
}

/// The one-character string for a decimal digit.
fn digit_str(d: u64) -> (r: &'static str)
    requires
        d < 10,
    ensures
        r@ == seq![digit_char(d as nat)],
{
    let r: &'static str = if d == 0 {
        "0"
    } else if d == 1 {
        "1"
    } else if d == 2 {
        "2"
    } else if d == 3 {
        "3"
    } else if d == 4 {
        "4"
    } else if d == 5 {
        "5"
    } else if d == 6 {
        "6"
    } else if d == 7 {
        "7"
    } else if d == 8 {
        "8"
    } else {
        "9"
    };
    proof {
        reveal_strlit("0");
        reveal_strlit("1");
        reveal_strlit("2");
        reveal_strlit("3");
        reveal_strlit("4");
        reveal_strlit("5");
        reveal_strlit("6");
        reveal_strlit("7");
        reveal_strlit("8");
        reveal_strlit("9");
        assert("0"@ =~= seq!['0']);
        assert("1"@ =~= seq!['1']);
        assert("2"@ =~= seq!['2']);
        assert("3"@ =~= seq!['3']);
        assert("4"@ =~= seq!['4']);
        assert("5"@ =~= seq!['5']);
        assert("6"@ =~= seq!['6']);
        assert("7"@ =~= seq!['7']);
        assert("8"@ =~= seq!['8']);
        assert("9"@ =~= seq!['9']);
    }
    r
}

/// Writes a number in decimal.
pub fn format_u64(n: u64) -> (s: String)
    ensures
        s@ == dec_rep(n as nat),
    decreases n,
{
    if n < 10 {
        digit_str(n).to_owned()
    } else {
        let mut s = format_u64(n / 10);
        s.append(digit_str(n % 10));
        proof {
            assert(dec_rep((n as nat) / 10).push(digit_char((n as nat) % 10)) =~= dec_rep(
                (n as nat) / 10,
            ) + seq![digit_char((n as nat) % 10)]);
        }
        s
    }
}

/// Writes a count of hundredths with two decimal places.
pub fn format_hundredths(h: u64) -> (s: String)
    ensures
        s@ == hundredths_rep(h as nat),
{
    let mut s = format_u64(h / 100);
    s.append(".");
    let f = h % 100;
    s.append(digit_str(f / 10));
    s.append(digit_str(f % 10));
    proof {
        assert(s@ =~= hundredths_rep(h as nat));
    }
    s
}

/// One hundred times `size / den`, rounded to nearest (ties to even),
/// computed without loss in 128-bit arithmetic.
fn scale100(size: u64, den: u64) -> (h: u64)
    requires
        den == KIB || den == MIB || den == GIB,
    ensures
        h as nat == round_nearest_even((size as nat) * 100, den as nat),
{
    let num: u128 = (size as u128) * 100;
    let d: u128 = den as u128;
    let q: u128 = num / d;
    let r: u128 = num % d;
    proof {
        lemma_div_is_ordered_by_denominator(num as int, 1024, d as int);
        lemma_div_is_ordered(num as int, 0xFFFF_FFFF_FFFF_FFFFu128 as int * 100, 1024);
        assert(q <= 0xFFFF_FFFF_FFFF_FFFFu128 as int * 100 / 1024);
    }
    let h: u128 = if 2 * r < d {
        q
    } else if 2 * r > d {
        q + 1
    } else if q % 2 == 0 {
        q
    } else {
        q + 1
    };
    h as u64
}

/// Writes a byte count in the unit the report uses.
pub fn format_size(size: u64) -> (s: String)
    ensures
        s@ == spec_format_size(size),
{
    if size >= GIB {
        let h = scale100(size, GIB);
        let mut s = format_hundredths(h);
        s.append(" GB");
        s
    } else if size >= MIB {
        let h = scale100(size, MIB);
        let mut s = format_hundredths(h);
        s.append(" MB");
        s
    } else if size >= KIB {
        let h = scale100(size, KIB);
        let mut s = format_hundredths(h);
        s.append(" KB");
        s
    } else {
        let mut s = format_u64(size);
        s.append(" Bytes");
        s
    }
}

/// Shortens a long path for display, keeping both of its ends.
pub fn format_path(path: &str) -> (s: String)
    ensures
        s@ == spec_format_path(path@),
{
    let n = path.unicode_len();
    if n <= 50 {
        path.to_owned()
    } else {
        let mut s = path.substring_char(0, 20).to_owned();
        s.append("...");
        s.append(path.substring_char(n - 20, n));
        proof {
            assert(s@ =~= spec_format_path(path@));
        }
        s
    }
}

} // verus!

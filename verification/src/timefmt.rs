use vstd::prelude::*;

use crate::text::string_from_chars;

verus! {

/// The character of the decimal digit `d` (`d < 10`).
pub open spec fn digit_char(d: nat) -> char {
    ((d + 48) as u32) as char
}

/// The decimal representation of `n`, without leading zeros.
pub open spec fn decimal(n: nat) -> Seq<char>
    decreases n,
{
    if n < 10 {
        seq![digit_char(n)]
    } else {
        decimal(n / 10).push(digit_char(n % 10))
    }
}

/// `n` in decimal, left-padded with `'0'` to at least `width` characters.
pub open spec fn zero_padded(n: nat, width: nat) -> Seq<char> {
    let d = decimal(n);
    if d.len() >= width {
        d
    } else {
        Seq::new((width - d.len()) as nat, |i: int| '0') + d
    }
}

fn digit(d: u64) -> (c: char)
    requires
        d < 10,
    ensures
        c == digit_char(d as nat),
{
    let b: u8 = (d as u8) + 48u8;
    b as char
}

fn decimal_chars(n: u64) -> (r: Vec<char>)
    ensures
        r@ == decimal(n as nat),
    decreases n,
{
    if n < 10 {
        let mut v: Vec<char> = Vec::new();
        v.push(digit(n));
        v
    } else {
        let mut v = decimal_chars(n / 10);
        v.push(digit(n % 10));
        v
    }
}

/// Appends `n` in decimal, zero-padded to `width`, to `out`.
fn push_padded(out: &mut Vec<char>, n: u64, width: usize)
    ensures
        final(out)@ == old(out)@ + zero_padded(n as nat, width as nat),
{
    let d = decimal_chars(n);
    if d.len() < width {
        let pad = width - d.len();
        let ghost start = out@;
        let mut i: usize = 0;
        while i < pad
            invariant
                i <= pad,
                pad == width - d@.len(),
                out@ == start + Seq::new(i as nat, |k: int| '0'),
            decreases pad - i,
        {
            out.push('0');
            i = i + 1;
            assert(out@ =~= start + Seq::new(i as nat, |k: int| '0'));
        }
    }
    let ghost before = out@;
    let mut j: usize = 0;
    while j < d.len()
        invariant
            j <= d@.len(),
            out@ == before + d@.take(j as int),
        decreases d@.len() - j,
    {
        out.push(d[j]);
        j = j + 1;
        assert(out@ =~= before + d@.take(j as int));
    }
    assert(d@.take(d@.len() as int) =~= d@);
}

/// The text that a modification time is shown as, for a time `secs` seconds
/// after the Unix epoch: `YYYY-MM-DD hh:mm:ss`, on a calendar of 365-day
/// years and 30-day months counted from 1970.
pub open spec fn timestamp_text(secs: nat) -> Seq<char> {
    let days = secs / 86400;
    let rem_days = days % 365;
    zero_padded(days / 365 + 1970, 4) + seq!['-'] + zero_padded(rem_days / 30 + 1, 2) + seq!['-']
        + zero_padded(rem_days % 30 + 1, 2) + seq![' '] + zero_padded((secs % 86400) / 3600, 2)
        + seq![':'] + zero_padded((secs % 3600) / 60, 2) + seq![':'] + zero_padded(secs % 60, 2)
}

/// Formats a time given as whole seconds since the Unix epoch.
pub fn format_system_time_fast(secs: u64) -> (r: String)
    ensures
        r@ == timestamp_text(secs as nat),
{
    let days = secs / 86400;
    let year = days / 365 + 1970;
    let remaining_days = days % 365;
    let month = remaining_days / 30 + 1;
    let day = remaining_days % 30 + 1;
    let hours = (secs % 86400) / 3600;
    let minutes = (secs % 3600) / 60;
    let seconds = secs % 60;
    let mut out: Vec<char> = Vec::new();
    push_padded(&mut out, year, 4);
    out.push('-');
    push_padded(&mut out, month, 2);
    out.push('-');
    push_padded(&mut out, day, 2);
    out.push(' ');
    push_padded(&mut out, hours, 2);
    out.push(':');
    push_padded(&mut out, minutes, 2);
    out.push(':');
    push_padded(&mut out, seconds, 2);
    assert(out@ =~= timestamp_text(secs as nat));
    string_from_chars(&out)
}

/// The number that a string of decimal digits stands for.
pub open spec fn decimal_value(s: Seq<char>) -> int
    decreases s.len(),
{
    if s.len() == 0 {
        0
    } else {
        decimal_value(s.drop_last()) * 10 + (s.last() as int - '0' as int)
    }
}

/// Whether every character of `s` is a decimal digit.
pub open spec fn all_digits(s: Seq<char>) -> bool {
    forall|i: int| 0 <= i < s.len() ==> '0' <= #[trigger] s[i] <= '9'
}

proof fn lemma_decimal_reads_back(n: nat)
    ensures
        decimal_value(decimal(n)) == n,
        all_digits(decimal(n)),
        decimal(n).len() >= 1,
        n < 10 ==> decimal(n).len() == 1,
        n < 100 ==> decimal(n).len() <= 2,
        n < 1000 ==> decimal(n).len() <= 3,
        n < 10000 ==> decimal(n).len() <= 4,
    decreases n,
{
    assert(digit_char(n % 10) as int == n % 10 + 48);
    if n < 10 {
        assert(decimal(n).drop_last() =~= Seq::<char>::empty());
        assert(decimal(n).last() == digit_char(n));
        assert('0' as int == 48);
        assert(decimal_value(decimal(n)) == decimal_value(Seq::<char>::empty()) * 10 + (digit_char(n) as int - '0' as int));
    } else {
        lemma_decimal_reads_back(n / 10);
        let d = decimal(n);
        assert(d.drop_last() =~= decimal(n / 10));
        assert(d.last() == digit_char(n % 10));
        assert(n == (n / 10) * 10 + n % 10);
        assert('0' as int == 48);
        assert(decimal_value(d) == decimal_value(decimal(n / 10)) * 10 + (d.last() as int - '0' as int));
        assert forall|i: int| 0 <= i < d.len() implies '0' <= #[trigger] d[i] <= '9' by {
            if i < d.len() - 1 {
                assert(d[i] == decimal(n / 10)[i]);
            }
        }
    }
}

proof fn lemma_leading_zeros(z: nat, s: Seq<char>)
    ensures
        decimal_value(Seq::new(z, |i: int| '0') + s) == decimal_value(s),
    decreases s.len(), z,
{
    if s.len() > 0 {
        lemma_leading_zeros(z, s.drop_last());
        assert((Seq::new(z, |i: int| '0') + s).drop_last() =~= Seq::new(z, |i: int| '0') + s.drop_last());
    } else if z > 0 {
        lemma_leading_zeros((z - 1) as nat, s);
        assert((Seq::new(z, |i: int| '0') + s).drop_last() =~= Seq::new((z - 1) as nat, |i: int| '0') + s);
        assert(Seq::new((z - 1) as nat, |i: int| '0') + s =~= Seq::new((z - 1) as nat, |i: int| '0'));
    } else {
        assert(Seq::new(z, |i: int| '0') + s =~= s);
    }
}

proof fn lemma_padded_reads_back(n: nat, width: nat)
    requires
        width == 2 && n < 100 || width == 4 && n < 10000,
    ensures
        zero_padded(n, width).len() == width,
        decimal_value(zero_padded(n, width)) == n,
        all_digits(zero_padded(n, width)),
{
    lemma_decimal_reads_back(n);
    let d = decimal(n);
    if d.len() < width {
        let z = Seq::new((width - d.len()) as nat, |i: int| '0');
        lemma_leading_zeros((width - d.len()) as nat, d);
        let p = z + d;
        assert forall|i: int| 0 <= i < p.len() implies '0' <= #[trigger] p[i] <= '9' by {
            if i >= z.len() {
                assert(p[i] == d[i - z.len()]);
            }
        }
    }
}

/// A modification time reads back to its seconds: for a year below 10000 the
/// text is `YYYY-MM-DD hh:mm:ss`, each field made of digits, and the fields
/// are the unique split of the seconds into 365-day years from 1970, 30-day
/// months, days, hours, minutes and seconds.
pub proof fn lemma_timestamp_reads_back(secs: nat)
    requires
        secs / 86400 / 365 + 1970 < 10000,
    ensures
        ({
            let t = timestamp_text(secs);
            let y = decimal_value(t.subrange(0, 4));
            let mo = decimal_value(t.subrange(5, 7));
            let d = decimal_value(t.subrange(8, 10));
            let h = decimal_value(t.subrange(11, 13));
            let mi = decimal_value(t.subrange(14, 16));
            let s = decimal_value(t.subrange(17, 19));
            &&& t.len() == 19
            &&& t[4] == '-' && t[7] == '-' && t[10] == ' ' && t[13] == ':' && t[16] == ':'
            &&& all_digits(t.subrange(0, 4)) && all_digits(t.subrange(5, 7)) && all_digits(
                t.subrange(8, 10),
            ) && all_digits(t.subrange(11, 13)) && all_digits(t.subrange(14, 16)) && all_digits(
                t.subrange(17, 19),
            )
            &&& y >= 1970 && 1 <= mo && 1 <= d <= 30 && (mo - 1) * 30 + (d - 1) < 365
            &&& 0 <= h < 24 && 0 <= mi < 60 && 0 <= s < 60
            &&& secs == ((y - 1970) * 365 + (mo - 1) * 30 + (d - 1)) * 86400 + h * 3600 + mi * 60 + s
        }),
{
    let days = secs / 86400;
    let rem = days % 365;
    let yv = days / 365 + 1970;
    let mov = rem / 30 + 1;
    let dv = rem % 30 + 1;
    let hv = (secs % 86400) / 3600;
    let miv = (secs % 3600) / 60;
    let sv = secs % 60;
    lemma_padded_reads_back(yv, 4);
    lemma_padded_reads_back(mov, 2);
    lemma_padded_reads_back(dv, 2);
    lemma_padded_reads_back(hv, 2);
    lemma_padded_reads_back(miv, 2);
    lemma_padded_reads_back(sv, 2);
    let t = timestamp_text(secs);
    let py = zero_padded(yv, 4);
    let pmo = zero_padded(mov, 2);
    let pd = zero_padded(dv, 2);
    let ph = zero_padded(hv, 2);
    let pmi = zero_padded(miv, 2);
    let ps = zero_padded(sv, 2);
    assert(t == py + seq!['-'] + pmo + seq!['-'] + pd + seq![' '] + ph + seq![':'] + pmi + seq![':'] + ps);
    assert(t.subrange(0, 4) =~= py);
    assert(t.subrange(5, 7) =~= pmo);
    assert(t.subrange(8, 10) =~= pd);
    assert(t.subrange(11, 13) =~= ph);
    assert(t.subrange(14, 16) =~= pmi);
    assert(t.subrange(17, 19) =~= ps);
    assert(days * 86400 + secs % 86400 == secs);
    assert(days == (days / 365) * 365 + rem);
    assert(rem == (rem / 30) * 30 + rem % 30);
    assert(secs % 86400 == hv * 3600 + miv * 60 + sv) by {
        assert(secs % 86400 == (secs % 86400) / 3600 * 3600 + (secs % 86400) % 3600);
        assert((secs % 86400) % 3600 == secs % 3600) by {
            assert(secs == days * 86400 + secs % 86400);
            assert(86400 == 24 * 3600);
            assert(secs == (days * 24 + (secs % 86400) / 3600) * 3600 + (secs % 86400) % 3600);
            vstd::arithmetic::div_mod::lemma_fundamental_div_mod_converse(
                secs as int,
                3600,
                (days * 24 + (secs % 86400) / 3600) as int,
                ((secs % 86400) % 3600) as int,
            );
        }
        assert(secs % 3600 == miv * 60 + sv) by {
            assert(secs % 3600 == (secs % 3600) / 60 * 60 + (secs % 3600) % 60);
            assert((secs % 3600) % 60 == secs % 60) by {
                assert(secs == secs / 3600 * 3600 + secs % 3600);
                assert(secs == (secs / 3600 * 60 + (secs % 3600) / 60) * 60 + (secs % 3600) % 60);
                vstd::arithmetic::div_mod::lemma_fundamental_div_mod_converse(
                    secs as int,
                    60,
                    (secs / 3600 * 60 + (secs % 3600) / 60) as int,
                    ((secs % 3600) % 60) as int,
                );
            }
        }
    }
}

} // verus!

//! Org timestamps and ISO instants: turning one into the other and back.
use vstd::prelude::*;
use crate::text::{
    all_digits, dec, digit_char, digits_value, find_char_from, fmt_int, is_digit, is_ws,
    lemma_find_char_from, parse_i32_spec, parse_unsigned, repeat, split, split_from, unsigned_body,
    word_end, words, words_from, ws_run_end, zero_pad,
};
use crate::text::{find_char, trim, ws_run_start};
use crate::util::{
    first_with_colon, has_char, i32_or_zero, iso_fields, iso_month_ok, iso_text, local_shift,
    law_time_shift_round_trip, spec_days_in_month, spec_iso_to_org_date, spec_org_date_to_iso,
    spec_parse_i32, spec_parse_u32, strip_leading, strip_trailing, utc_shift, weekday_name,
    weekday_num,
};

verus! {

pub(crate) proof fn lemma_dec(n: nat)
    ensures
        all_digits(dec(n)),
        dec(n).len() >= 1,
        digits_value(dec(n)) == n,
        n < 10 ==> dec(n).len() == 1,
        n < 100 ==> dec(n).len() <= 2,
        n < 10000 ==> dec(n).len() <= 4,
    decreases n,
{
    if n < 10 {
        assert(digit_char(n) as nat == '0' as nat + n);
        assert(dec(n).drop_last() =~= Seq::<char>::empty());
        assert(digits_value(dec(n)) == digits_value(Seq::<char>::empty()) * 10 + ((dec(n)[0] as nat) - ('0' as nat)) as nat);
    } else {
        let q = n / 10;
        let r = n % 10;
        assert(q < n);
        lemma_dec(q);
        let p = dec(q);
        assert(dec(n) == p.push(digit_char(r)));
        assert(dec(n).drop_last() =~= p);
        assert(n == q * 10 + r) by (nonlinear_arith)
            requires q == n / 10, r == n % 10;
        assert(n < 100 ==> q < 10) by (nonlinear_arith)
            requires q == n / 10;
        assert(n < 10000 ==> q < 1000) by (nonlinear_arith)
            requires q == n / 10;
        if q < 1000 {
            lemma_dec_len3(q);
        }
        assert(digit_char(r) as nat == '0' as nat + r);
        assert(dec(n)[dec(n).len() - 1] == digit_char(r));
        assert(digits_value(dec(n)) == digits_value(p) * 10 + ((digit_char(r) as nat) - ('0' as nat)) as nat);
        assert(digits_value(dec(n)) == q * 10 + r);
        assert forall|i: int| 0 <= i < dec(n).len() implies is_digit(#[trigger] dec(n)[i]) by {
            if i < p.len() {
                assert(dec(n)[i] == p[i]);
            }
        }
    }
}

proof fn lemma_dec_len3(q: nat)
    requires
        q < 1000,
    ensures
        dec(q).len() <= 3,
    decreases q,
{
    if q >= 10 {
        let q2 = q / 10;
        assert(q2 < 100) by (nonlinear_arith)
            requires q2 == q / 10, q < 1000;
        lemma_dec(q2);
        assert(dec(q).drop_last() =~= dec(q2));
    }
}

proof fn lemma_zeros(k: nat)
    ensures
        all_digits(repeat('0', k)),
        digits_value(repeat('0', k)) == 0,
    decreases k,
{
    if k > 0 {
        lemma_zeros((k - 1) as nat);
        assert(repeat('0', k).drop_last() =~= repeat('0', (k - 1) as nat));
    }
}

proof fn lemma_leading_zeros(k: nat, d: Seq<char>)
    ensures
        digits_value(repeat('0', k) + d) == digits_value(d),
    decreases d.len(),
{
    if d.len() == 0 {
        lemma_zeros(k);
        assert(repeat('0', k) + d =~= repeat('0', k));
    } else {
        lemma_leading_zeros(k, d.drop_last());
        assert((repeat('0', k) + d).drop_last() =~= repeat('0', k) + d.drop_last());
    }
}

/// A number written with at least `w` digits: all digits, the number's value, and
/// exactly `w` digits when it has no more.
proof fn lemma_fmt(n: nat, w: nat)
    ensures
        all_digits(fmt_int(n as int, w)),
        fmt_int(n as int, w).len() >= 1,
        digits_value(fmt_int(n as int, w)) == n,
        dec(n).len() <= w ==> fmt_int(n as int, w).len() == w,
{
    lemma_dec(n);
    let d = dec(n);
    if d.len() < w {
        let k = (w - d.len()) as nat;
        lemma_zeros(k);
        lemma_leading_zeros(k, d);
        let z = repeat('0', k) + d;
        assert forall|i: int| 0 <= i < z.len() implies is_digit(#[trigger] z[i]) by {
            if i < k {
                assert(z[i] == '0');
            } else {
                assert(z[i] == d[i - k]);
            }
        }
    }
}

/// What the date and time readers make of a number written with `w` digits.
proof fn lemma_parse_fmt(n: nat, w: nat)
    requires
        n <= 9999,
    ensures
        spec_parse_i32(fmt_int(n as int, w)) == Some(n as i32),
        spec_parse_u32(fmt_int(n as int, w)) == Some(n as u32),
        i32_or_zero(fmt_int(n as int, w)) == n as i32,
{
    lemma_fmt(n, w);
    let p = fmt_int(n as int, w);
    assert(is_digit(p[0]));
    assert(unsigned_body(p) == p);
}

// ------------------------------------------------------------------
// Splitting at a separator
// ------------------------------------------------------------------

proof fn lemma_find_char_shift(p: Seq<char>, q: Seq<char>, c: char, j: int)
    requires
        0 <= j <= q.len(),
    ensures
        find_char_from(p + q, c, p.len() + j) == match find_char_from(q, c, j) {
            Some(k) => Some(p.len() + k),
            None => None::<int>,
        },
    decreases q.len() - j,
{
    if j < q.len() {
        assert((p + q)[p.len() + j] == q[j]);
        lemma_find_char_shift(p, q, c, j + 1);
    }
}

proof fn lemma_split_shift(p: Seq<char>, q: Seq<char>, c: char, j: int)
    requires
        0 <= j <= q.len(),
    ensures
        split_from(p + q, c, p.len() + j) == split_from(q, c, j),
    decreases q.len() - j,
{
    lemma_find_char_shift(p, q, c, j);
    lemma_find_char_from(q, c, j);
    match find_char_from(q, c, j) {
        Some(k) => {
            lemma_split_shift(p, q, c, k + 1);
            assert((p + q).subrange(p.len() + j, p.len() + k) =~= q.subrange(j, k));
        },
        None => {
            assert((p + q).subrange(p.len() + j, (p + q).len() as int) =~= q.subrange(j, q.len() as int));
        },
    }
}

/// `a` followed by the separator and `rest` splits into `a` and the pieces of `rest`.
pub(crate) proof fn lemma_split_cons(a: Seq<char>, rest: Seq<char>, c: char)
    requires
        forall|i: int| 0 <= i < a.len() ==> a[i] != c,
    ensures
        split(a + seq![c] + rest, c) == seq![a] + split(rest, c),
{
    let s = a + seq![c] + rest;
    assert forall|i: int| 0 <= i < a.len() implies s[i] != c by {
        assert(s[i] == a[i]);
    }
    assert(s[a.len() as int] == c);
    lemma_find_char_from(s, c, 0);
    assert(find_char_from(s, c, 0) == Some(a.len() as int)) by {
        lemma_find_first(s, c, 0, a.len() as int);
    }
    assert(s.subrange(0, a.len() as int) =~= a);
    assert(s =~= (a + seq![c]) + rest);
    lemma_split_shift(a + seq![c], rest, c, 0);
}

proof fn lemma_find_first(s: Seq<char>, c: char, i: int, k: int)
    requires
        0 <= i <= k < s.len(),
        s[k] == c,
        forall|j: int| i <= j < k ==> s[j] != c,
    ensures
        find_char_from(s, c, i) == Some(k),
    decreases k - i,
{
    if i < k {
        lemma_find_first(s, c, i + 1, k);
    }
}

/// A piece without the separator splits into itself.
pub(crate) proof fn lemma_split_one(a: Seq<char>, c: char)
    requires
        forall|i: int| 0 <= i < a.len() ==> a[i] != c,
    ensures
        split(a, c) == seq![a],
{
    lemma_find_char_from(a, c, 0);
    assert(a.subrange(0, a.len() as int) =~= a);
}

// ------------------------------------------------------------------
// Words
// ------------------------------------------------------------------

proof fn lemma_ws_run_end_shift(p: Seq<char>, q: Seq<char>, j: int)
    requires
        0 <= j <= q.len(),
    ensures
        ws_run_end(p + q, p.len() + j) == p.len() + ws_run_end(q, j),
    decreases q.len() - j,
{
    if j < q.len() {
        assert((p + q)[p.len() + j] == q[j]);
        lemma_ws_run_end_shift(p, q, j + 1);
    }
}

proof fn lemma_word_end_shift(p: Seq<char>, q: Seq<char>, j: int)
    requires
        0 <= j <= q.len(),
    ensures
        word_end(p + q, p.len() + j) == p.len() + word_end(q, j),
    decreases q.len() - j,
{
    if j < q.len() {
        assert((p + q)[p.len() + j] == q[j]);
        lemma_word_end_shift(p, q, j + 1);
    }
}

proof fn lemma_words_shift(p: Seq<char>, q: Seq<char>, j: int)
    requires
        0 <= j <= q.len(),
    ensures
        words_from(p + q, p.len() + j) == words_from(q, j),
    decreases q.len() - j,
{
    if j < q.len() {
        lemma_ws_run_end_shift(p, q, j);
        crate::text::lemma_ws_run_end(q, j);
        let a = ws_run_end(q, j);
        if a < q.len() {
            lemma_word_end_shift(p, q, a);
            crate::text::lemma_word_end(q, a);
            let b = word_end(q, a);
            lemma_words_shift(p, q, b);
            assert((p + q).subrange(p.len() + a, p.len() + b) =~= q.subrange(a, b));
        }
    }
}

proof fn lemma_word_end_at(s: Seq<char>, i: int, k: int)
    requires
        0 <= i <= k <= s.len(),
        forall|j: int| i <= j < k ==> !is_ws(s[j]),
        k < s.len() ==> is_ws(s[k]),
    ensures
        word_end(s, i) == k,
    decreases k - i,
{
    if i < k {
        lemma_word_end_at(s, i + 1, k);
    }
}

/// A word without whitespace, a space and `rest` give that word and the words of `rest`.
proof fn lemma_words_cons(a: Seq<char>, rest: Seq<char>)
    requires
        a.len() > 0,
        forall|i: int| 0 <= i < a.len() ==> !is_ws(a[i]),
    ensures
        words(a + seq![' '] + rest) == seq![a] + words(rest),
{
    let s = a + seq![' '] + rest;
    let n = a.len() as int;
    assert(s =~= (a + seq![' ']) + rest);
    assert(!is_ws(s[0]));
    lemma_word_end_at(s, 0, n);
    assert(s.subrange(0, n) =~= a);
    // From the space on, the words are those of `rest`.
    assert(is_ws(s[n]));
    assert(ws_run_end(s, n) == ws_run_end(s, n + 1));
    lemma_words_shift(a + seq![' '], rest, 0);
    assert(words_from(s, n) == words_from(s, n + 1));
}

/// A word without whitespace is its only word.
proof fn lemma_words_one(a: Seq<char>)
    requires
        a.len() > 0,
        forall|i: int| 0 <= i < a.len() ==> !is_ws(a[i]),
    ensures
        words(a) == seq![a],
{
    assert(!is_ws(a[0]));
    lemma_word_end_at(a, 0, a.len() as int);
    assert(a.subrange(0, a.len() as int) =~= a);
    assert(words_from(a, a.len() as int) == Seq::<Seq<char>>::empty());
    assert(seq![a] + Seq::<Seq<char>>::empty() =~= seq![a]);
}

// ------------------------------------------------------------------
// Reading an ISO instant back
// ------------------------------------------------------------------

/// `s` is made of ASCII digits.
pub open spec fn digits_only(s: Seq<char>) -> bool {
    forall|i: int| 0 <= i < s.len() ==> '0' <= #[trigger] s[i] && s[i] <= '9'
}

proof fn lemma_fmt_digits(n: nat, w: nat)
    ensures
        digits_only(fmt_int(n as int, w)),
{
    lemma_fmt(n, w);
}

/// The text around a number: its first and last characters are not whitespace.
proof fn lemma_trim_same(s: Seq<char>)
    requires
        s.len() > 0,
        !is_ws(s[0]),
        !is_ws(s[s.len() - 1]),
    ensures
        trim(s) == s,
{
    assert(ws_run_end(s, 0) == 0);
    assert(ws_run_start(s, s.len() as int) == s.len());
    assert(s.subrange(0, s.len() as int) =~= s);
}

/// An ISO instant written by `iso_text` reads back into the fields it was written from.
proof fn lemma_iso_fields(y: i32, mo: u32, d: i32, h: i32, mi: i32)
    requires
        0 <= y <= 9999,
        1 <= mo <= 12,
        1 <= d <= 31,
        0 <= h <= 23,
        0 <= mi <= 59,
    ensures
        iso_fields(iso_text(y, mo, d, h, mi)) == Some((y, mo, d as u32, h, mi)),
{
    reveal_strlit("-");
    reveal_strlit("T");
    reveal_strlit(":");
    reveal_strlit(":00.000Z");
    let yy = fmt_int(y as int, 4);
    let mm = fmt_int(mo as int, 2);
    let dd = fmt_int(d as int, 2);
    let hh = fmt_int(h as int, 2);
    let ii = fmt_int(mi as int, 2);
    lemma_dec(y as nat);
    lemma_dec(mo as nat);
    lemma_dec(d as nat);
    lemma_dec(h as nat);
    lemma_dec(mi as nat);
    lemma_fmt(y as nat, 4);
    lemma_fmt(mo as nat, 2);
    lemma_fmt(d as nat, 2);
    lemma_fmt(h as nat, 2);
    lemma_fmt(mi as nat, 2);
    lemma_fmt_digits(y as nat, 4);
    lemma_fmt_digits(mo as nat, 2);
    lemma_fmt_digits(d as nat, 2);
    lemma_fmt_digits(h as nat, 2);
    lemma_fmt_digits(mi as nat, 2);
    let tail = ":00.000Z"@;
    let date = yy + seq!['-'] + mm + seq!['-'] + dd;
    let time = hh + seq![':'] + ii + tail;
    let s = iso_text(y, mo, d, h, mi);
    assert(s =~= date + seq!['T'] + time);
    assert(date.len() == 10);
    // The instant is already trimmed.
    assert(s[0] == yy[0]);
    assert(s[s.len() - 1] == 'Z');
    lemma_trim_same(s);
    // The first `T` ends the date.
    assert forall|i: int| 0 <= i < 10 implies s[i] != 'T' by {
        assert(s[i] == date[i]);
        if i < 4 {
            assert(date[i] == yy[i]);
        } else if 5 <= i < 7 {
            assert(date[i] == mm[i - 5]);
        } else if 8 <= i < 10 {
            assert(date[i] == dd[i - 8]);
        }
    }
    assert(s[10] == 'T');
    lemma_find_first(s, 'T', 0, 10);
    assert(find_char(s, 'T') == Some(10int));
    assert(s.subrange(0, 10) =~= date);
    assert(s.subrange(11, s.len() as int) =~= time);
    // The date splits into its three numbers.
    assert forall|i: int| 0 <= i < yy.len() implies yy[i] != '-' by {}
    assert forall|i: int| 0 <= i < mm.len() implies mm[i] != '-' by {}
    assert forall|i: int| 0 <= i < dd.len() implies dd[i] != '-' by {}
    lemma_split_cons(yy, mm + seq!['-'] + dd, '-');
    lemma_split_cons(mm, dd, '-');
    lemma_split_one(dd, '-');
    assert(date =~= yy + seq!['-'] + (mm + seq!['-'] + dd));
    assert(crate::text::split(date, '-') =~= seq![yy, mm, dd]);
    lemma_parse_fmt(y as nat, 4);
    lemma_parse_fmt(mo as nat, 2);
    lemma_parse_fmt(d as nat, 2);
    lemma_parse_fmt(h as nat, 2);
    lemma_parse_fmt(mi as nat, 2);
    // The time splits into hour, minute and the rest.
    assert forall|i: int| 0 <= i < hh.len() implies hh[i] != ':' by {}
    assert forall|i: int| 0 <= i < ii.len() implies ii[i] != ':' by {}
    let rest = tail.drop_first();
    assert(tail =~= seq![':'] + rest);
    assert(time =~= hh + seq![':'] + (ii + seq![':'] + rest));
    lemma_split_cons(hh, ii + seq![':'] + rest, ':');
    lemma_split_cons(ii, rest, ':');
    let tp = crate::text::split(time, ':');
    assert(tp[0] == hh);
    assert(tp[1] == ii);
    assert(tp.len() > 1);
}

// ------------------------------------------------------------------
// Reading an Org timestamp
// ------------------------------------------------------------------

/// The Org timestamp `<YYYY-MM-DD Www HH:MM>` of a time, with its weekday.
pub open spec fn org_stamp(y: i32, mo: u32, d: i32, h: i32, mi: i32) -> Seq<char> {
    "<"@ + fmt_int(y as int, 4) + "-"@ + fmt_int(mo as int, 2) + "-"@ + fmt_int(d as int, 2) + " "@
        + weekday_name(weekday_num(y, mo, d)) + " "@ + fmt_int(h as int, 2) + ":"@ + fmt_int(
        mi as int,
        2,
    ) + ">"@
}

/// A weekday name is three letters.
proof fn lemma_weekday_name(n: i32)
    ensures
        weekday_name(n).len() == 3,
        forall|i: int| 0 <= i < 3 ==> ('A' <= #[trigger] weekday_name(n)[i] <= 'Z' || 'a' <= weekday_name(n)[i] <= 'z'),
{
    reveal_strlit("Sun");
    reveal_strlit("Mon");
    reveal_strlit("Tue");
    reveal_strlit("Wed");
    reveal_strlit("Thu");
    reveal_strlit("Fri");
    reveal_strlit("Sat");
}

/// The Org timestamp of a time in UTC+8 reads as the ISO instant of that time in UTC.
proof fn lemma_org_side(y: i32, mo: u32, d: u32, h: i32, mi: i32)
    requires
        0 <= y <= 9999,
        1 <= mo <= 12,
        1 <= d <= 31,
        0 <= h <= 23,
        0 <= mi <= 59,
    ensures
        ({
            let (uy, umo, ud, uh) = utc_shift(y, mo, d, h);
            spec_org_date_to_iso(org_stamp(y, mo, d as i32, h, mi)) == Some(iso_text(uy, umo, ud, uh, mi))
        }),
{
    reveal_strlit("<");
    reveal_strlit(">");
    reveal_strlit("-");
    reveal_strlit(" ");
    reveal_strlit(":");
    let yy = fmt_int(y as int, 4);
    let mm = fmt_int(mo as int, 2);
    let dd = fmt_int(d as int, 2);
    let hh = fmt_int(h as int, 2);
    let ii = fmt_int(mi as int, 2);
    let w = weekday_name(weekday_num(y, mo, d as i32));
    lemma_dec(y as nat);
    lemma_dec(mo as nat);
    lemma_dec(d as nat);
    lemma_dec(h as nat);
    lemma_dec(mi as nat);
    lemma_fmt(y as nat, 4);
    lemma_fmt(mo as nat, 2);
    lemma_fmt(d as nat, 2);
    lemma_fmt(h as nat, 2);
    lemma_fmt(mi as nat, 2);
    lemma_fmt_digits(y as nat, 4);
    lemma_fmt_digits(mo as nat, 2);
    lemma_fmt_digits(d as nat, 2);
    lemma_fmt_digits(h as nat, 2);
    lemma_fmt_digits(mi as nat, 2);
    lemma_weekday_name(weekday_num(y, mo, d as i32));
    let ymd = yy + seq!['-'] + mm + seq!['-'] + dd;
    let hi = hh + seq![':'] + ii;
    let s1 = ymd + seq![' '] + w + seq![' '] + hi;
    let org = org_stamp(y, mo, d as i32, h, mi);
    assert(org =~= seq!['<'] + s1 + seq!['>']);
    // Trimming keeps it, and the angle brackets come off.
    lemma_trim_same(org);
    assert(org.drop_first() =~= s1 + seq!['>']);
    assert(s1[0] == yy[0]);
    assert(org[0] == '<');
    let t1 = s1 + seq!['>'];
    assert(t1[0] == yy[0]);
    assert(t1[0] != '<');
    assert(strip_leading(t1, '<') == t1);
    assert(strip_leading(org, '<') == strip_leading(org.drop_first(), '<'));
    assert(strip_leading(org, '<') == t1);
    assert(t1.drop_last() =~= s1);
    assert(s1.last() == ii[ii.len() - 1]);
    assert(s1.last() != '>');
    assert(t1[t1.len() - 1] == '>');
    assert(strip_trailing(s1, '>') == s1);
    assert(strip_trailing(t1, '>') == strip_trailing(t1.drop_last(), '>'));
    assert(strip_trailing(t1, '>') == s1);
    // Three words: the date, the weekday and the time.
    assert forall|i: int| 0 <= i < ymd.len() implies !is_ws(ymd[i]) && ymd[i] != ':' by {
        if i < 4 {
            assert(ymd[i] == yy[i]);
        } else if 5 <= i < 7 {
            assert(ymd[i] == mm[i - 5]);
        } else if 8 <= i < 10 {
            assert(ymd[i] == dd[i - 8]);
        }
    }
    assert forall|i: int| 0 <= i < w.len() implies !is_ws(w[i]) && w[i] != ':' by {}
    assert forall|i: int| 0 <= i < hi.len() implies !is_ws(hi[i]) by {
        if i < 2 {
            assert(hi[i] == hh[i]);
        } else if i > 2 {
            assert(hi[i] == ii[i - 3]);
        }
    }
    assert(s1 =~= ymd + seq![' '] + (w + seq![' '] + hi));
    lemma_words_cons(ymd, w + seq![' '] + hi);
    lemma_words_cons(w, hi);
    lemma_words_one(hi);
    let ws = words(s1);
    assert(ws =~= seq![ymd, w, hi]);
    // The first word with a colon is the time.
    assert(!has_char(ymd, ':'));
    assert(!has_char(w, ':'));
    assert(hi[2] == ':');
    assert(has_char(hi, ':'));
    assert(ws[0] == ymd && ws[1] == w && ws[2] == hi && ws.len() == 3);
    assert(first_with_colon(ws, 2) == Some(hi));
    assert(first_with_colon(ws, 1) == first_with_colon(ws, 2));
    assert(first_with_colon(ws, 0) == first_with_colon(ws, 1));
    assert(first_with_colon(ws, 0) == Some(hi));
    // The date and the time split into their numbers.
    assert forall|i: int| 0 <= i < yy.len() implies yy[i] != '-' by {}
    assert forall|i: int| 0 <= i < mm.len() implies mm[i] != '-' by {}
    assert forall|i: int| 0 <= i < dd.len() implies dd[i] != '-' by {}
    assert(ymd =~= yy + seq!['-'] + (mm + seq!['-'] + dd));
    lemma_split_cons(yy, mm + seq!['-'] + dd, '-');
    lemma_split_cons(mm, dd, '-');
    lemma_split_one(dd, '-');
    assert(split(ymd, '-') =~= seq![yy, mm, dd]);
    assert forall|i: int| 0 <= i < hh.len() implies hh[i] != ':' by {}
    assert forall|i: int| 0 <= i < ii.len() implies ii[i] != ':' by {}
    lemma_split_cons(hh, ii, ':');
    lemma_split_one(ii, ':');
    assert(split(hi, ':') =~= seq![hh, ii]);
    lemma_parse_fmt(y as nat, 4);
    lemma_parse_fmt(mo as nat, 2);
    lemma_parse_fmt(d as nat, 2);
    lemma_parse_fmt(h as nat, 2);
    lemma_parse_fmt(mi as nat, 2);
}

/// Dates survive the trip from Org to MDX and back: the Org timestamp of a valid time
/// of the years 1 to 9999 converts to an ISO instant that converts back to the same Org
/// timestamp (and whose month `iso_to_org_date` takes).
pub proof fn law_date_round_trip(y: i32, mo: u32, d: u32, h: i32, mi: i32)
    requires
        1 <= y <= 9999,
        1 <= mo <= 12,
        1 <= d <= spec_days_in_month(y, mo),
        0 <= h <= 23,
        0 <= mi <= 59,
    ensures
        spec_org_date_to_iso(org_stamp(y, mo, d as i32, h, mi)) matches Some(iso) && iso_month_ok(iso)
            && spec_iso_to_org_date(iso) == Some(org_stamp(y, mo, d as i32, h, mi)),
{
    lemma_org_side(y, mo, d, h, mi);
    law_time_shift_round_trip(y, mo, d, h);
    let (uy, umo, ud, uh) = utc_shift(y, mo, d, h);
    assert(0 <= uy <= 9999);
    assert(1 <= umo <= 12);
    assert(1 <= ud <= 31);
    assert(0 <= uh <= 23);
    lemma_iso_fields(uy, umo, ud, uh, mi);
}

/// And the other way: the ISO instant of a valid UTC time (years 1 to 9998) converts to
/// an Org timestamp that converts back to the same instant.
pub proof fn law_instant_round_trip(y: i32, mo: u32, d: u32, h: i32, mi: i32)
    requires
        1 <= y <= 9998,
        1 <= mo <= 12,
        1 <= d <= spec_days_in_month(y, mo),
        0 <= h <= 23,
        0 <= mi <= 59,
    ensures
        iso_month_ok(iso_text(y, mo, d as i32, h, mi)),
        spec_iso_to_org_date(iso_text(y, mo, d as i32, h, mi)) matches Some(org)
            && spec_org_date_to_iso(org) == Some(iso_text(y, mo, d as i32, h, mi)),
{
    lemma_iso_fields(y, mo, d as i32, h, mi);
    law_time_shift_round_trip(y, mo, d, h);
    let (ly, lmo, ld, lh) = local_shift(y, mo, d, h);
    assert(1 <= ly <= 9999);
    assert(1 <= lmo <= 12);
    assert(1 <= ld <= 31);
    assert(0 <= lh <= 23);
    lemma_org_side(ly, lmo, ld as u32, lh, mi);
}

/// `iso_to_org_date` takes the ISO instant of every valid UTC time of the years 0 to
/// 9999 and gives an Org timestamp for it.
pub proof fn law_iso_to_org_date_some(y: i32, mo: u32, d: u32, h: i32, mi: i32)
    requires
        0 <= y <= 9999,
        1 <= mo <= 12,
        1 <= d <= spec_days_in_month(y, mo),
        0 <= h <= 23,
        0 <= mi <= 59,
    ensures
        iso_month_ok(iso_text(y, mo, d as i32, h, mi)),
        spec_iso_to_org_date(iso_text(y, mo, d as i32, h, mi)) is Some,
{
    lemma_iso_fields(y, mo, d as i32, h, mi);
    law_time_shift_round_trip(y, mo, d, h);
}


// ------------------------------------------------------------------
// Weekdays
// ------------------------------------------------------------------

/// The day after a valid date: the next day of the month, the first of the next month,
/// or New Year's Day of the next year.
pub open spec fn next_date(y: i32, mo: u32, d: i32) -> (i32, u32, i32) {
    if d < spec_days_in_month(y, mo) {
        (y, mo, (d + 1) as i32)
    } else if mo < 12 {
        (y, (mo + 1) as u32, 1)
    } else {
        ((y + 1) as i32, 1, 1)
    }
}

/// Sakamoto's sum for a date, in mathematical integers.
spec fn sakamoto(y: int, mo: int, d: int) -> int {
    let t = seq![0int, 3, 2, 5, 0, 3, 5, 1, 4, 6, 2, 4];
    let ya = if mo < 3 { y - 1 } else { y };
    ya + ya / 4 - ya / 100 + ya / 400 + t[mo - 1] + d
}

proof fn lemma_weekday_value(y: i32, mo: u32, d: i32)
    requires
        1 <= y <= 10000,
        1 <= mo <= 12,
        1 <= d <= 31,
    ensures
        weekday_num(y, mo, d) == sakamoto(y as int, mo as int, d as int) % 7,
{
    let t: Seq<i32> = seq![0, 3, 2, 5, 0, 3, 5, 1, 4, 6, 2, 4];
    let ti = seq![0int, 3, 2, 5, 0, 3, 5, 1, 4, 6, 2, 4];
    assert(t[mo - 1] as int == ti[mo - 1]) by {
        assert(t.len() == 12 && ti.len() == 12);
        assert(forall|i: int| 0 <= i < 12 ==> #[trigger] t[i] as int == ti[i]);
    }
    assert(0 <= t[mo - 1] <= 6);
    let ya: i32 = if mo < 3 { y.wrapping_sub(1) } else { y };
    assert(ya == if mo < 3 { y - 1 } else { y as int });
    let q4: i32 = (if ya >= 0 { ya / 4 } else { -((-(ya as int)) / 4) }) as i32;
    let q100: i32 = (if ya >= 0 { ya / 100 } else { -((-(ya as int)) / 100) }) as i32;
    let q400: i32 = (if ya >= 0 { ya / 400 } else { -((-(ya as int)) / 400) }) as i32;
    assert(q4 == ya / 4 && q100 == ya / 100 && q400 == ya / 400);
    let s1 = ya.wrapping_add(q4);
    assert(s1 == ya + q4);
    let s2 = s1.wrapping_sub(q100);
    assert(s2 == s1 - q100);
    let s3 = s2.wrapping_add(q400);
    assert(s3 == s2 + q400);
    let s4 = s3.wrapping_add(t[mo - 1]);
    assert(s4 == s3 + t[mo - 1]);
    let sum = s4.wrapping_add(d);
    assert(sum == s4 + d);
    assert(sum as int == sakamoto(y as int, mo as int, d as int));
    assert(sum >= 0);
}

/// The days of each month as Sakamoto's table counts them.
spec fn month_days(y: int, mo: int) -> int {
    if mo == 2 {
        if y % 4 == 0 && (y % 100 != 0 || y % 400 == 0) { 29 } else { 28 }
    } else if mo == 4 || mo == 6 || mo == 9 || mo == 11 {
        30
    } else {
        31
    }
}

/// Sakamoto's sum grows by one, up to a multiple of seven, from each date to the next.
proof fn lemma_sakamoto_step(y: int, mo: int, d: int)
    requires
        1 <= y,
        1 <= mo <= 12,
        1 <= d <= month_days(y, mo),
    ensures
        d < month_days(y, mo) ==> sakamoto(y, mo, d + 1) == sakamoto(y, mo, d) + 1,
        d == month_days(y, mo) && mo < 12 ==> (sakamoto(y, mo + 1, 1) - sakamoto(y, mo, d) - 1) % 7 == 0,
        d == month_days(y, mo) && mo == 12 ==> (sakamoto(y + 1, 1, 1) - sakamoto(y, mo, d) - 1) % 7 == 0,
{
    if d == month_days(y, mo) && mo == 2 {
        assert(y / 4 - (y - 1) / 4 == if y % 4 == 0 { 1int } else { 0int });
        assert(y / 100 - (y - 1) / 100 == if y % 100 == 0 { 1int } else { 0int });
        assert(y / 400 - (y - 1) / 400 == if y % 400 == 0 { 1int } else { 0int });
        assert(sakamoto(y, 3, 1) - sakamoto(y, 2, d) - 1 == -28);
    }
}

proof fn lemma_mod_next(a: int, b: int)
    requires
        0 <= a,
        0 <= b,
        (b - a - 1) % 7 == 0,
    ensures
        b % 7 == (a % 7 + 1) % 7,
{
}

/// Weekdays follow the calendar: from any valid date of the years 1 to 9999 to the next
/// day (across the end of a month, of February in leap and common years, and of the
/// year) the weekday moves on by exactly one, and 1 January 2024 is a Monday (1; Sunday
/// is 0). Every weekday is between 0 and 6.
pub proof fn law_weekday_steps(y: i32, mo: u32, d: i32)
    requires
        1 <= y <= 9999,
        1 <= mo <= 12,
        1 <= d <= spec_days_in_month(y, mo),
    ensures
        0 <= weekday_num(y, mo, d) < 7,
        ({
            let (ny, nm, nd) = next_date(y, mo, d);
            weekday_num(ny, nm, nd) == (weekday_num(y, mo, d) + 1) % 7
        }),
        weekday_num(2024, 1, 1) == 1,
{
    assert(spec_days_in_month(y, mo) as int == month_days(y as int, mo as int));
    lemma_weekday_value(y, mo, d);
    lemma_weekday_value(2024, 1, 1);
    assert(sakamoto(2024, 1, 1) == 2023 + 505 - 20 + 5 + 0 + 1);
    let (ny, nm, nd) = next_date(y, mo, d);
    lemma_weekday_value(ny, nm, nd);
    lemma_sakamoto_step(y as int, mo as int, d as int);
    let a = sakamoto(y as int, mo as int, d as int);
    let b = sakamoto(ny as int, nm as int, nd as int);
    assert((b - a - 1) % 7 == 0);
    lemma_mod_next(a, b);
}


/// Org timestamps are UTC+8 and ISO instants UTC: reading an Org timestamp at 08:00 or
/// later gives the same day eight hours earlier; before 08:00 it gives the day before,
/// sixteen hours later. The other way, an instant before 16:00 gives the same day eight
/// hours later, and one at 16:00 or later the next day, sixteen hours earlier.
pub proof fn law_utc_offset(y: i32, mo: u32, d: u32, h: i32, mi: i32)
    requires
        1 <= y <= 9998,
        1 <= mo <= 12,
        1 <= d <= spec_days_in_month(y, mo),
        0 <= h <= 23,
        0 <= mi <= 59,
    ensures
        ({
            let (uy, umo, ud, uh) = utc_shift(y, mo, d, h);
            &&& spec_org_date_to_iso(org_stamp(y, mo, d as i32, h, mi)) == Some(iso_text(uy, umo, ud, uh, mi))
            &&& h >= 8 ==> uy == y && umo == mo && ud == d && uh == h - 8
            &&& h < 8 ==> {
                &&& uh == h + 16
                &&& 1 <= umo <= 12
                &&& 1 <= ud <= spec_days_in_month(uy, umo)
                &&& next_date(uy, umo, ud) == (y, mo, d as i32)
            }
        }),
        ({
            let (ly, lmo, ld, lh) = local_shift(y, mo, d, h);
            &&& spec_iso_to_org_date(iso_text(y, mo, d as i32, h, mi)) == Some(org_stamp(ly, lmo, ld, lh, mi))
            &&& h < 16 ==> ly == y && lmo == mo && ld == d && lh == h + 8
            &&& h >= 16 ==> lh == h - 16 && next_date(y, mo, d as i32) == (ly, lmo, ld)
        }),
{
    lemma_org_side(y, mo, d, h, mi);
    lemma_iso_fields(y, mo, d as i32, h, mi);
    law_time_shift_round_trip(y, mo, d, h);
    let (uy, umo, ud, uh) = utc_shift(y, mo, d, h);
    if h < 8 {
        if d == 1 {
            if mo == 1 {
                assert(umo == 12 && ud == 31);
            } else {
                assert(umo == mo - 1);
            }
        }
    }
}

} // verus!

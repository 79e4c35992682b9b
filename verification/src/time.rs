//! Timestamp text: rendering whole milliseconds as `M:SS.mmm` (or
//! `H:MM:SS.mmm` past an hour), and cutting a typed timestamp into the fields
//! that are then read as numbers.
use vstd::prelude::*;
use crate::text::{
    digit_char, trim_end, trim_start, whitespace, chars_of, decimal, push_decimal, push_padded, split_chars, split_on, string_of, trim, trimmed,
    views, zero_padded, Strip, lemma_split_on_nonempty,
};

verus! {

/// `M:SS.mmm`, or `H:MM:SS.mmm` once the hour count is positive, for a time
/// given in whole milliseconds.
pub open spec fn clock_text(total_ms: nat) -> Seq<char> {
    let ms = total_ms % 1000;
    let total_s = total_ms / 1000;
    let s = total_s % 60;
    let total_m = total_s / 60;
    let m = total_m % 60;
    let h = total_m / 60;
    if h > 0 {
        decimal(h) + seq![':'] + zero_padded(m, 2) + seq![':'] + zero_padded(s, 2) + seq!['.']
            + zero_padded(ms, 3)
    } else {
        decimal(m) + seq![':'] + zero_padded(s, 2) + seq!['.'] + zero_padded(ms, 3)
    }
}

/// Renders a time given in whole milliseconds as `M:SS.mmm`, switching to
/// `H:MM:SS.mmm` past one hour. Exact to the millisecond: an agent reading
/// the text gets the very range that was marked.
pub fn format_millis(total_ms: u64) -> (text: String)
    ensures
        text@ == clock_text(total_ms as nat),
{
    let ms = total_ms % 1000;
    let total_s = total_ms / 1000;
    let s = total_s % 60;
    let total_m = total_s / 60;
    let m = total_m % 60;
    let h = total_m / 60;
    let mut out: Vec<char> = Vec::new();
    if h > 0 {
        push_decimal(&mut out, h);
        out.push(':');
        push_padded(&mut out, m, 2);
    } else {
        push_decimal(&mut out, m);
    }
    out.push(':');
    push_padded(&mut out, s, 2);
    out.push('.');
    push_padded(&mut out, ms, 3);
    string_of(&out)
}


/// The fields of a typed timestamp: `s` with surrounding white space
/// removed, cut at every `:`. There is no timestamp when nothing but white
/// space was typed or when there are more than three fields.
pub open spec fn timestamp_parts(s: Seq<char>) -> Option<Seq<Seq<char>>> {
    let t = trim(s, Strip::Whitespace);
    let parts = split_on(t, ':');
    if t.len() == 0 || parts.len() > 3 {
        None
    } else {
        Some(parts)
    }
}

/// Cuts a timestamp (`M:SS.mmm`, `H:MM:SS.mmm`, or plain seconds) into its
/// fields, most significant first. Each field still has to be read as a
/// number; one field is plain seconds, two are minutes and seconds, three are
/// hours, minutes and seconds.
pub fn timestamp_fields(s: &str) -> (fields: Option<Vec<String>>)
    ensures
        fields is Some <==> timestamp_parts(s@) is Some,
        fields matches Some(v) ==> Some(views(v@)) == timestamp_parts(s@),
{
    let chars = chars_of(s);
    let t = trimmed(&chars, Strip::Whitespace);
    if t.len() == 0 {
        return None;
    }
    let parts = split_chars(&t, ':');
    if parts.len() > 3 {
        None
    } else {
        Some(parts)
    }
}


/// A decimal digit character.
pub open spec fn is_digit(c: char) -> bool {
    '0' <= c <= '9'
}

proof fn lemma_digit_char(d: nat)
    ensures
        is_digit(digit_char(d)),
{
}

proof fn lemma_decimal_digits(n: nat)
    ensures
        decimal(n).len() >= 1,
        forall|i: int| 0 <= i < decimal(n).len() ==> is_digit(#[trigger] decimal(n)[i]),
    decreases n,
{
    lemma_digit_char(n % 10);
    if n >= 10 {
        lemma_decimal_digits(n / 10);
        let d = decimal(n / 10);
        assert forall|i: int| 0 <= i < decimal(n).len() implies is_digit(#[trigger] decimal(n)[i]) by {
            if i < d.len() {
                assert(decimal(n)[i] == d[i]);
            }
        }
    } else {
        lemma_digit_char(n);
    }
}

proof fn lemma_padded_digits(n: nat, w: nat)
    ensures
        zero_padded(n, w).len() >= 1,
        forall|i: int| 0 <= i < zero_padded(n, w).len() ==> is_digit(#[trigger] zero_padded(n, w)[i]),
{
    lemma_decimal_digits(n);
    let d = decimal(n);
    if d.len() < w {
        let z = Seq::new((w - d.len()) as nat, |i: int| '0');
        assert forall|i: int| 0 <= i < zero_padded(n, w).len() implies is_digit(#[trigger] zero_padded(n, w)[i]) by {
            if i < z.len() {
                assert(zero_padded(n, w)[i] == '0');
            } else {
                assert(zero_padded(n, w)[i] == d[i - z.len()]);
            }
        }
    }
}

proof fn lemma_split_no_sep(x: Seq<char>, sep: char)
    requires
        forall|i: int| 0 <= i < x.len() ==> #[trigger] x[i] != sep,
    ensures
        split_on(x, sep) == seq![x],
    decreases x.len(),
{
    if x.len() > 0 {
        let t = x.drop_last();
        assert forall|i: int| 0 <= i < t.len() implies #[trigger] t[i] != sep by {
            assert(t[i] == x[i]);
        }
        lemma_split_no_sep(t, sep);
        assert(x[x.len() - 1] != sep);
        assert(t.push(x.last()) =~= x);
        assert(seq![t].update(0, t.push(x.last())) =~= seq![x]);
    } else {
        assert(x =~= Seq::<char>::empty());
    }
}

proof fn lemma_split_append(x: Seq<char>, y: Seq<char>, sep: char)
    requires
        forall|i: int| 0 <= i < y.len() ==> #[trigger] y[i] != sep,
    ensures
        split_on(x + seq![sep] + y, sep) == split_on(x, sep).push(y),
    decreases y.len(),
{
    lemma_split_on_nonempty(x, sep);
    if y.len() == 0 {
        assert(x + seq![sep] + y =~= x.push(sep));
        assert((x + seq![sep] + y).drop_last() =~= x);
        assert(y =~= Seq::<char>::empty());
    } else {
        let t = y.drop_last();
        assert forall|i: int| 0 <= i < t.len() implies #[trigger] t[i] != sep by {
            assert(t[i] == y[i]);
        }
        lemma_split_append(x, t, sep);
        let whole = x + seq![sep] + y;
        assert(whole.drop_last() == x + seq![sep] + t);
        assert(whole.last() == y.last());
        assert(y[y.len() - 1] != sep);
        let r = split_on(x, sep).push(t);
        assert(t.push(y.last()) =~= y);
        assert(r.update(r.len() - 1, r.last().push(y.last())) =~= split_on(x, sep).push(y));
    }
}

/// Cutting a rendered clock time back into fields gives its hour, minute and
/// second fields, the last one still carrying its milliseconds: text made by
/// `format_millis` is always a timestamp `timestamp_fields` accepts.
pub proof fn lemma_clock_text_fields(total_ms: nat)
    ensures
        ({
            let ms = total_ms % 1000;
            let total_s = total_ms / 1000;
            let s = total_s % 60;
            let total_m = total_s / 60;
            let m = total_m % 60;
            let h = total_m / 60;
            let last = zero_padded(s, 2) + seq!['.'] + zero_padded(ms, 3);
            timestamp_parts(clock_text(total_ms)) == Some(
                if h > 0 {
                    seq![decimal(h), zero_padded(m, 2), last]
                } else {
                    seq![decimal(m), last]
                },
            )
        }),
{
    let ms = total_ms % 1000;
    let total_s = total_ms / 1000;
    let s = total_s % 60;
    let total_m = total_s / 60;
    let m = total_m % 60;
    let h = total_m / 60;
    let ps = zero_padded(s, 2);
    let pms = zero_padded(ms, 3);
    let last = ps + seq!['.'] + pms;
    lemma_padded_digits(s, 2);
    lemma_padded_digits(ms, 3);
    lemma_padded_digits(m, 2);
    lemma_decimal_digits(h);
    lemma_decimal_digits(m);
    assert forall|i: int| 0 <= i < last.len() implies #[trigger] last[i] != ':' && !whitespace(last[i]) by {
        if i < ps.len() {
            assert(last[i] == ps[i]);
        } else if i == ps.len() {
            assert(last[i] == '.');
        } else {
            assert(last[i] == pms[i - ps.len() - 1]);
        }
    }
    let t = clock_text(total_ms);
    let first = if h > 0 { decimal(h) } else { decimal(m) };
    assert(forall|i: int| 0 <= i < first.len() ==> #[trigger] first[i] != ':' && !whitespace(first[i]));
    if h > 0 {
        let pm = zero_padded(m, 2);
        assert(forall|i: int| 0 <= i < pm.len() ==> #[trigger] pm[i] != ':');
        assert(t == first + seq![':'] + pm + seq![':'] + last);
        lemma_split_no_sep(first, ':');
        lemma_split_append(first, pm, ':');
        lemma_split_append(first + seq![':'] + pm, last, ':');
        assert(split_on(t, ':') =~= seq![first, pm, last]);
    } else {
        assert(t == first + seq![':'] + last);
        lemma_split_no_sep(first, ':');
        lemma_split_append(first, last, ':');
        assert(split_on(t, ':') =~= seq![first, last]);
    }
    assert(t[0] == first[0]);
    assert(t.last() == last.last());
    assert(trim_start(t, Strip::Whitespace) == t);
    assert(trim_end(t, Strip::Whitespace) == t);
}


/// Index of the first `c` in `s`.
pub open spec fn first_index_of(s: Seq<char>, c: char) -> Option<int>
    decreases s.len(),
{
    if s.len() == 0 {
        None
    } else if s[0] == c {
        Some(0)
    } else {
        match first_index_of(s.drop_first(), c) {
            Some(k) => Some(k + 1),
            None => None,
        }
    }
}

proof fn lemma_first_index_of(s: Seq<char>, c: char, i: int)
    requires
        0 <= i <= s.len(),
        forall|k: int| 0 <= k < i ==> #[trigger] s[k] != c,
    ensures
        i < s.len() && s[i] == c ==> first_index_of(s, c) == Some(i),
        i == s.len() ==> first_index_of(s, c) is None,
    decreases i,
{
    if i > 0 {
        let t = s.drop_first();
        assert forall|k: int| 0 <= k < i - 1 implies #[trigger] t[k] != c by {
            assert(t[k] == s[k + 1]);
        }
        assert(s[0] != c);
        lemma_first_index_of(t, c, i - 1);
    }
}

/// The two ends of a typed range `START-END`: the text before and after its
/// first `-`, each without surrounding white space. None when there is no `-`.
pub open spec fn range_parts(s: Seq<char>) -> Option<(Seq<char>, Seq<char>)> {
    match first_index_of(s, '-') {
        Some(k) => Some((trim(s.take(k), Strip::Whitespace), trim(s.skip(k + 1), Strip::Whitespace))),
        None => None,
    }
}

/// Cuts a typed range `START-END` into its two timestamps, each still to be
/// read as a timestamp.
pub fn range_fields(s: &str) -> (ends: Option<(String, String)>)
    ensures
        match range_parts(s@) {
            Some((a, b)) => ends matches Some((x, y)) && x@ == a && y@ == b,
            None => ends is None,
        },
{
    let chars = chars_of(s);
    let n = chars.len();
    let mut i: usize = 0;
    while i < n && chars[i] != '-'
        invariant
            n == chars@.len(),
            i <= n,
            forall|k: int| 0 <= k < i ==> #[trigger] chars@[k] != '-',
        decreases n - i,
    {
        i += 1;
    }
    proof {
        lemma_first_index_of(chars@, '-', i as int);
    }
    if i == n {
        return None;
    }
    let mut left: Vec<char> = Vec::new();
    let mut j: usize = 0;
    while j < i
        invariant
            n == chars@.len(),
            i < n,
            j <= i,
            left@ == chars@.take(j as int),
        decreases i - j,
    {
        left.push(chars[j]);
        assert(chars@.take(j + 1) == chars@.take(j as int).push(chars@[j as int]));
        j += 1;
    }
    let mut right: Vec<char> = Vec::new();
    let mut k: usize = i + 1;
    while k < n
        invariant
            n == chars@.len(),
            i < n,
            i + 1 <= k <= n,
            right@ == chars@.subrange(i + 1, k as int),
        decreases n - k,
    {
        right.push(chars[k]);
        assert(chars@.subrange(i + 1, k + 1) == chars@.subrange(i + 1, k as int).push(chars@[k as int]));
        k += 1;
    }
    assert(chars@.subrange(i + 1, n as int) == chars@.skip(i + 1));
    let a = trimmed(&left, Strip::Whitespace);
    let b = trimmed(&right, Strip::Whitespace);
    Some((string_of(&a), string_of(&b)))
}

} // verus!

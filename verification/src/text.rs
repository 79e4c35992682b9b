//! Small text helpers shared by the formatting code: moving between `&str`,
//! `String` and character vectors, and decimal rendering of integers.
use vstd::prelude::*;

verus! {

/// Appends one character to a `String` (`String::push`). Trusted: the
/// contract claims that the string's characters become the old ones followed
/// by `c`, as the standard library documents.
#[verifier::external_body]
fn push_char(s: &mut String, c: char)
    ensures
        final(s)@ == old(s)@.push(c),
{
    s.push(c)
}

/// The characters of `s`, in order.
pub fn chars_of(s: &str) -> (v: Vec<char>)
    ensures
        v@ == s@,
{
    let mut v: Vec<char> = Vec::new();
    for c in it: s.chars()
        invariant
            v@ == it.seq().take(it.index() as int),
    {
        v.push(c);
    }
    v
}

/// A `String` holding exactly the characters of `chars`.
pub fn string_of(chars: &Vec<char>) -> (s: String)
    ensures
        s@ == chars@,
{
    let mut s = String::new();
    let mut i: usize = 0;
    while i < chars.len()
        invariant
            i <= chars.len(),
            s@ == chars@.take(i as int),
        decreases chars.len() - i,
    {
        push_char(&mut s, chars[i]);
        assert(chars@.take(i + 1) == chars@.take(i as int).push(chars@[i as int]));
        i += 1;
    }
    assert(chars@.take(chars.len() as int) == chars@);
    s
}

/// The character of a decimal digit.
pub open spec fn digit_char(d: nat) -> char {
    if d == 0 { '0' }
    else if d == 1 { '1' }
    else if d == 2 { '2' }
    else if d == 3 { '3' }
    else if d == 4 { '4' }
    else if d == 5 { '5' }
    else if d == 6 { '6' }
    else if d == 7 { '7' }
    else if d == 8 { '8' }
    else { '9' }
}

/// The decimal digits of `n`, most significant first, with no leading zeros
/// (zero itself is the single digit `0`).
pub open spec fn decimal(n: nat) -> Seq<char>
    decreases n,
{
    if n < 10 {
        seq![digit_char(n)]
    } else {
        decimal(n / 10).push(digit_char(n % 10))
    }
}

/// `decimal(n)` left-padded with zeros to at least `width` characters.
pub open spec fn zero_padded(n: nat, width: nat) -> Seq<char> {
    let d = decimal(n);
    if d.len() >= width {
        d
    } else {
        Seq::new((width - d.len()) as nat, |i: int| '0') + d
    }
}

fn digit_to_char(d: u64) -> (c: char)
    requires
        d < 10,
    ensures
        c == digit_char(d as nat),
{
    if d == 0 { '0' }
    else if d == 1 { '1' }
    else if d == 2 { '2' }
    else if d == 3 { '3' }
    else if d == 4 { '4' }
    else if d == 5 { '5' }
    else if d == 6 { '6' }
    else if d == 7 { '7' }
    else if d == 8 { '8' }
    else { '9' }
}

/// Appends the decimal digits of `n` to `out`.
pub fn push_decimal(out: &mut Vec<char>, n: u64)
    ensures
        final(out)@ == old(out)@ + decimal(n as nat),
    decreases n,
{
    if n < 10 {
        out.push(digit_to_char(n));
        assert(decimal(n as nat) == seq![digit_char(n as nat)]);
    } else {
        push_decimal(out, n / 10);
        out.push(digit_to_char(n % 10));
    }
}

/// Appends `n` in decimal, left-padded with zeros to `width` characters.
pub fn push_padded(out: &mut Vec<char>, n: u64, width: usize)
    ensures
        final(out)@ == old(out)@ + zero_padded(n as nat, width as nat),
{
    let mut digits: Vec<char> = Vec::new();
    push_decimal(&mut digits, n);
    assert(digits@ == decimal(n as nat));
    let len = digits.len();
    let ghost before = out@;
    if len < width {
        let mut k: usize = 0;
        while k < width - len
            invariant
                len < width,
                k <= width - len,
                out@ == before + Seq::new(k as nat, |i: int| '0'),
            decreases width - len - k,
        {
            out.push('0');
            assert(Seq::new((k + 1) as nat, |i: int| '0') == Seq::new(k as nat, |i: int| '0').push('0'));
            k += 1;
        }
    }
    let mut j: usize = 0;
    let ghost mid = out@;
    while j < len
        invariant
            len == digits@.len(),
            j <= len,
            out@ == mid + digits@.take(j as int),
        decreases len - j,
    {
        out.push(digits[j]);
        assert(digits@.take(j + 1) == digits@.take(j as int).push(digits@[j as int]));
        j += 1;
    }
    assert(digits@.take(len as int) == digits@);
    assert(out@ == before + zero_padded(n as nat, width as nat));
}


/// Whether `c` has the Unicode White_Space property (what
/// `char::is_whitespace` reports): tab, line feed, vertical tab, form feed,
/// carriage return, space, next line, no-break space, ogham space mark, the
/// spaces U+2000 to U+200A, line and paragraph separators, narrow no-break
/// space, medium mathematical space and ideographic space.
pub open spec fn whitespace(c: char) -> bool {
    let u = c as u32;
    ||| 0x09 <= u <= 0x0D
    ||| u == 0x20
    ||| u == 0x85
    ||| u == 0xA0
    ||| u == 0x1680
    ||| 0x2000 <= u <= 0x200A
    ||| u == 0x2028
    ||| u == 0x2029
    ||| u == 0x202F
    ||| u == 0x205F
    ||| u == 0x3000
}

/// Whether `c` is white space (see `whitespace`).
pub fn is_whitespace(c: char) -> (b: bool)
    ensures
        b == whitespace(c),
{
    let u = c as u32;
    (0x09 <= u && u <= 0x0D) || u == 0x20 || u == 0x85 || u == 0xA0 || u == 0x1680
        || (0x2000 <= u && u <= 0x200A) || u == 0x2028 || u == 0x2029 || u == 0x202F
        || u == 0x205F || u == 0x3000
}

/// Which characters a trim strips.
pub enum Strip {
    /// Unicode white space, as `str::trim` strips.
    Whitespace,
    /// The `-` character only.
    Dash,
}

/// Whether `strip` removes the character `c`.
pub open spec fn strips(strip: Strip, c: char) -> bool {
    match strip {
        Strip::Whitespace => whitespace(c),
        Strip::Dash => c == '-',
    }
}

fn stripped(strip: &Strip, c: char) -> (b: bool)
    ensures
        b == strips(*strip, c),
{
    match strip {
        Strip::Whitespace => is_whitespace(c),
        Strip::Dash => c == '-',
    }
}

/// `s` without the stripped characters at its front.
pub open spec fn trim_start(s: Seq<char>, strip: Strip) -> Seq<char>
    decreases s.len(),
{
    if s.len() > 0 && strips(strip, s[0]) {
        trim_start(s.drop_first(), strip)
    } else {
        s
    }
}

/// `s` without the stripped characters at its back.
pub open spec fn trim_end(s: Seq<char>, strip: Strip) -> Seq<char>
    decreases s.len(),
{
    if s.len() > 0 && strips(strip, s.last()) {
        trim_end(s.drop_last(), strip)
    } else {
        s
    }
}

/// `s` without the stripped characters at either end.
pub open spec fn trim(s: Seq<char>, strip: Strip) -> Seq<char> {
    trim_end(trim_start(s, strip), strip)
}

proof fn lemma_trim_start_at(s: Seq<char>, strip: Strip, i: int)
    requires
        0 <= i <= s.len(),
        forall|k: int| 0 <= k < i ==> strips(strip, #[trigger] s[k]),
        i == s.len() || !strips(strip, s[i]),
    ensures
        trim_start(s, strip) == s.subrange(i, s.len() as int),
    decreases i,
{
    if i == 0 {
        assert(s.subrange(0, s.len() as int) == s);
    } else {
        assert(strips(strip, s[0]));
        let t = s.drop_first();
        assert forall|k: int| 0 <= k < i - 1 implies strips(strip, #[trigger] t[k]) by {
            assert(t[k] == s[k + 1]);
        }
        if i - 1 < t.len() {
            assert(t[i - 1] == s[i]);
        }
        lemma_trim_start_at(t, strip, i - 1);
        assert(t.subrange(i - 1, t.len() as int) == s.subrange(i, s.len() as int));
    }
}

proof fn lemma_trim_end_at(s: Seq<char>, strip: Strip, j: int)
    requires
        0 <= j <= s.len(),
        forall|k: int| j <= k < s.len() ==> strips(strip, #[trigger] s[k]),
        j == 0 || !strips(strip, s[j - 1]),
    ensures
        trim_end(s, strip) == s.subrange(0, j),
    decreases s.len() - j,
{
    if j == s.len() {
        assert(s.subrange(0, j) == s);
    } else {
        assert(strips(strip, s[s.len() - 1]));
        let t = s.drop_last();
        assert forall|k: int| j <= k < t.len() implies strips(strip, #[trigger] t[k]) by {
            assert(t[k] == s[k]);
        }
        if j > 0 {
            assert(t[j - 1] == s[j - 1]);
        }
        lemma_trim_end_at(t, strip, j);
        assert(t.subrange(0, j) == s.subrange(0, j));
    }
}

/// `chars` with the stripped characters removed from both ends.
pub fn trimmed(chars: &Vec<char>, strip: Strip) -> (out: Vec<char>)
    ensures
        out@ == trim(chars@, strip),
{
    let n = chars.len();
    let mut i: usize = 0;
    while i < n && stripped(&strip, chars[i])
        invariant
            n == chars@.len(),
            i <= n,
            forall|k: int| 0 <= k < i ==> strips(strip, #[trigger] chars@[k]),
        decreases n - i,
    {
        i += 1;
    }
    proof {
        lemma_trim_start_at(chars@, strip, i as int);
    }
    let ghost front = chars@.subrange(i as int, n as int);
    let mut j: usize = n;
    while j > i && stripped(&strip, chars[j - 1])
        invariant
            n == chars@.len(),
            i <= j <= n,
            forall|k: int| j <= k < n ==> strips(strip, #[trigger] chars@[k]),
        decreases j,
    {
        j -= 1;
    }
    proof {
        assert forall|k: int| (j - i) <= k < front.len() implies strips(strip, #[trigger] front[k]) by {
            assert(front[k] == chars@[k + i]);
        }
        if j > i {
            assert(front[j - i - 1] == chars@[j - 1]);
        }
        lemma_trim_end_at(front, strip, j - i);
        assert(front.subrange(0, j - i) == chars@.subrange(i as int, j as int));
    }
    let mut out: Vec<char> = Vec::new();
    let mut k: usize = i;
    while k < j
        invariant
            n == chars@.len(),
            i <= k <= j <= n,
            out@ == chars@.subrange(i as int, k as int),
        decreases j - k,
    {
        out.push(chars[k]);
        assert(chars@.subrange(i as int, k + 1) == chars@.subrange(i as int, k as int).push(chars@[k as int]));
        k += 1;
    }
    out
}


/// Appends the characters of `s` to `out`.
pub fn append_str(out: &mut Vec<char>, s: &str)
    ensures
        final(out)@ == old(out)@ + s@,
{
    let chars = chars_of(s);
    let ghost before = out@;
    let mut i: usize = 0;
    while i < chars.len()
        invariant
            i <= chars@.len(),
            chars@ == s@,
            out@ == before + chars@.take(i as int),
        decreases chars.len() - i,
    {
        out.push(chars[i]);
        assert(chars@.take(i + 1) == chars@.take(i as int).push(chars@[i as int]));
        i += 1;
    }
    assert(chars@.take(chars@.len() as int) == chars@);
}

/// The pieces of `s` between occurrences of `sep`, in order: one more piece
/// than there are separators, pieces possibly empty (as `str::split`).
pub open spec fn split_on(s: Seq<char>, sep: char) -> Seq<Seq<char>>
    decreases s.len(),
{
    if s.len() == 0 {
        seq![Seq::<char>::empty()]
    } else {
        let r = split_on(s.drop_last(), sep);
        if s.last() == sep {
            r.push(Seq::<char>::empty())
        } else {
            r.update(r.len() - 1, r.last().push(s.last()))
        }
    }
}

pub proof fn lemma_split_on_nonempty(s: Seq<char>, sep: char)
    ensures
        split_on(s, sep).len() >= 1,
    decreases s.len(),
{
    if s.len() > 0 {
        lemma_split_on_nonempty(s.drop_last(), sep);
    }
}

/// The views of a vector of strings.
pub open spec fn views(v: Seq<String>) -> Seq<Seq<char>> {
    v.map_values(|x: String| x@)
}

/// Splits `chars` at every `sep`, as `str::split` with a character pattern.
pub fn split_chars(chars: &Vec<char>, sep: char) -> (parts: Vec<String>)
    ensures
        views(parts@) == split_on(chars@, sep),
{
    let n = chars.len();
    let mut done: Vec<String> = Vec::new();
    let mut cur: Vec<char> = Vec::new();
    let mut i: usize = 0;
    while i < n
        invariant
            n == chars@.len(),
            i <= n,
            views(done@).push(cur@) == split_on(chars@.take(i as int), sep),
        decreases n - i,
    {
        let c = chars[i];
        proof {
            assert(chars@.take(i + 1).drop_last() == chars@.take(i as int));
            assert(chars@.take(i + 1).last() == c);
            lemma_split_on_nonempty(chars@.take(i as int), sep);
        }
        if c == sep {
            let piece = string_of(&cur);
            done.push(piece);
            cur = Vec::new();
            assert(views(done@) == views(done@).drop_last().push(piece@));
            assert(views(done@).push(cur@) == split_on(chars@.take(i + 1), sep));
        } else {
            let ghost old_cur = cur@;
            cur.push(c);
            assert(views(done@).push(cur@) == views(done@).push(old_cur).update(
                views(done@).len() as int, old_cur.push(c)));
        }
        i += 1;
    }
    let piece = string_of(&cur);
    done.push(piece);
    assert(chars@.take(n as int) == chars@);
    assert(views(done@) == views(done@).drop_last().push(piece@));
    done
}

} // verus!

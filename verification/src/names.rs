//! Names: the extension of the session sidecar, file names made from
//! annotation text, shortened labels, and the schema names of the exchanged
//! documents.
use vstd::prelude::*;
use crate::text::{chars_of, push_padded, string_of, trim, trim_end, trimmed, zero_padded, Strip};

verus! {

/// The schema a patch document carries when it names none.
pub const PATCH_SCHEMA: &'static str = "wavemark/patches";

/// The schema of the annotation payload, which is also accepted back.
pub const ANNOTATIONS_SCHEMA: &'static str = "wavemark/annotations";

/// What wavemark appends to an audio file's name for its sidecar.
pub const SESSION_EXT: &'static str = "wavemark.json";

/// The schema a patch document takes when it names none.
pub fn default_schema() -> (s: String)
    ensures
        s@ == PATCH_SCHEMA@,
{
    PATCH_SCHEMA.to_owned()
}

/// Whether a patch document's schema is one wavemark applies: its own patch
/// schema, or the annotation payload it hands out.
pub fn schema_recognised(schema: &str) -> (ok: bool)
    ensures
        ok == (schema@ == PATCH_SCHEMA@ || schema@ == ANNOTATIONS_SCHEMA@),
{
    let s = schema.to_owned();
    let p = PATCH_SCHEMA.to_owned();
    let a = ANNOTATIONS_SCHEMA.to_owned();
    s.eq(&p) || s.eq(&a)
}

// What `char::is_alphanumeric` says of a character (the Unicode Alphabetic
// or Numeric properties).
pub uninterp spec fn alphanumeric(c: char) -> bool;

// What `str::to_lowercase` gives for a text (Unicode lowercase mapping, which
// for some characters depends on their neighbours).
pub uninterp spec fn lowercase(s: Seq<char>) -> Seq<char>;

/// Calls `char::is_alphanumeric`. Trusted: the contract only names the
/// answer (`alphanumeric`), leaving the Unicode tables to the standard library.
#[verifier::external_body]
fn char_is_alphanumeric(c: char) -> (b: bool)
    ensures
        b == alphanumeric(c),
{
    c.is_alphanumeric()
}

/// Calls `str::to_lowercase`. Trusted: the contract only names the result
/// (`lowercase`), leaving the Unicode mapping to the standard library.
#[verifier::external_body]
fn str_to_lowercase(s: &str) -> (r: String)
    ensures
        r@ == lowercase(s@),
{
    s.to_lowercase()
}

/// `s` with every character that is not alphanumeric replaced by `-`.
pub open spec fn dashed(s: Seq<char>) -> Seq<char> {
    s.map_values(|c: char| if alphanumeric(c) { c } else { '-' })
}

/// The file-name slug of `text`: non-alphanumerics become `-`, dashes are
/// trimmed from both ends, the rest is lowercased and cut to `max`
/// characters, and trailing dashes are trimmed again; `untitled` when
/// nothing is left before that last trim.
pub open spec fn slug_of(text: Seq<char>, max: nat) -> Seq<char> {
    let l = lowercase(trim(dashed(text), Strip::Dash));
    let k = if l.len() <= max { l } else { l.take(max as int) };
    if k.len() == 0 { "untitled"@ } else { trim_end(k, Strip::Dash) }
}

/// Turns annotation text into something safe to use as a file name.
pub fn slug(text: &str, max: usize) -> (s: String)
    ensures
        s@ == slug_of(text@, max as nat),
{
    let chars = chars_of(text);
    let mut mapped: Vec<char> = Vec::new();
    let mut i: usize = 0;
    while i < chars.len()
        invariant
            i <= chars@.len(),
            chars@ == text@,
            mapped@ == dashed(chars@.take(i as int)),
        decreases chars.len() - i,
    {
        let c = chars[i];
        if char_is_alphanumeric(c) {
            mapped.push(c);
        } else {
            mapped.push('-');
        }
        assert(dashed(chars@.take(i + 1)) =~= dashed(chars@.take(i as int)).push(
            if alphanumeric(c) { c } else { '-' }));
        i += 1;
    }
    assert(chars@.take(chars@.len() as int) == chars@);
    let t = trimmed(&mapped, Strip::Dash);
    let ts = string_of(&t);
    let lower = str_to_lowercase(ts.as_str());
    let l = chars_of(lower.as_str());
    let mut k: Vec<char> = Vec::new();
    let mut j: usize = 0;
    while j < l.len() && j < max
        invariant
            j <= l@.len(),
            j <= max,
            k@ == l@.take(j as int),
        decreases l.len() - j,
    {
        k.push(l[j]);
        assert(l@.take(j + 1) == l@.take(j as int).push(l@[j as int]));
        j += 1;
    }
    assert(l@.len() <= max ==> l@.take(l@.len() as int) == l@);
    if k.len() == 0 {
        "untitled".to_owned()
    } else {
        let u = trim_dash_end(&k);
        string_of(&u)
    }
}

/// `chars` without the dashes at its end.
fn trim_dash_end(chars: &Vec<char>) -> (out: Vec<char>)
    ensures
        out@ == trim_end(chars@, Strip::Dash),
{
    let mut out: Vec<char> = Vec::new();
    let mut j: usize = chars.len();
    assert(chars@.take(chars@.len() as int) == chars@);
    while j > 0 && chars[j - 1] == '-'
        invariant
            j <= chars@.len(),
            trim_end(chars@, Strip::Dash) == trim_end(chars@.take(j as int), Strip::Dash),
        decreases j,
    {
        assert(chars@.take(j as int).drop_last() == chars@.take(j - 1));
        j -= 1;
    }
    assert(j == 0 || chars@.take(j as int).last() == chars@[j - 1]);
    assert(trim_end(chars@.take(j as int), Strip::Dash) == chars@.take(j as int));
    let mut i: usize = 0;
    while i < j
        invariant
            j <= chars@.len(),
            i <= j,
            out@ == chars@.take(i as int),
        decreases j - i,
    {
        out.push(chars[i]);
        assert(chars@.take(i + 1) == chars@.take(i as int).push(chars@[i as int]));
        i += 1;
    }
    out
}

/// The base of a batch-exported file's name (the `.wav` goes after it):
/// `STEM-NNN-SLUG` from the annotation's text and its 1-based number padded
/// to three digits, or `STEM-SLUG` from its id. Slugs are cut to 40
/// characters.
pub fn batch_file_base(stem: &str, number: u64, name_by_text: bool, text: &str, id: &str) -> (base: String)
    ensures
        base@ == if name_by_text {
            stem@ + seq!['-'] + zero_padded(number as nat, 3) + seq!['-'] + slug_of(text@, 40)
        } else {
            stem@ + seq!['-'] + slug_of(id@, 40)
        },
{
    let mut out = chars_of(stem);
    out.push('-');
    let s = if name_by_text {
        push_padded(&mut out, number, 3);
        out.push('-');
        slug(text, 40)
    } else {
        slug(id, 40)
    };
    let sc = chars_of(s.as_str());
    let ghost before = out@;
    let mut i: usize = 0;
    while i < sc.len()
        invariant
            i <= sc@.len(),
            out@ == before + sc@.take(i as int),
        decreases sc.len() - i,
    {
        out.push(sc[i]);
        assert(sc@.take(i + 1) == sc@.take(i as int).push(sc@[i as int]));
        i += 1;
    }
    assert(sc@.take(sc@.len() as int) == sc@);
    string_of(&out)
}

/// The ellipsis that stands for the dropped middle of a shortened label.
pub open spec fn ellipsis() -> char {
    '\u{2026}'
}

/// How many characters of the tail a label shortened to `max` keeps.
pub open spec fn tail_kept(max: nat) -> nat {
    let keep = if max >= 1 { (max - 1) as nat } else { 0 };
    let t = keep / 3;
    if t < 4 { 4 } else if t > keep { keep } else { t }
}

/// `s` shortened to at most `max` characters by dropping its middle for an
/// ellipsis, keeping the tail (where a file's extension is).
pub open spec fn ellipsized(s: Seq<char>, max: nat) -> Seq<char> {
    if s.len() <= max {
        s
    } else {
        let tail = tail_kept(max);
        let head = (max - 1 - tail) as nat;
        s.take(head as int) + seq![ellipsis()] + s.skip(s.len() - tail)
    }
}

/// Shortens `s` to at most `max` characters, dropping the middle so the tail
/// (which holds the extension) survives: `/very/long/path…/clip.wav`.
pub fn ellipsize(s: &str, max: usize) -> (out: String)
    requires
        s@.len() <= max || max >= 5,
    ensures
        out@ == ellipsized(s@, max as nat),
{
    let chars = chars_of(s);
    let n = chars.len();
    if n <= max {
        return string_of(&chars);
    }
    let keep = max - 1;
    let t = keep / 3;
    let tail = if t < 4 { 4 } else if t > keep { keep } else { t };
    let head = keep - tail;
    let mut out: Vec<char> = Vec::new();
    let mut i: usize = 0;
    while i < head
        invariant
            n == chars@.len(),
            head < n,
            i <= head,
            out@ == chars@.take(i as int),
        decreases head - i,
    {
        out.push(chars[i]);
        assert(chars@.take(i + 1) == chars@.take(i as int).push(chars@[i as int]));
        i += 1;
    }
    out.push('\u{2026}');
    let ghost mid = out@;
    let mut j: usize = n - tail;
    while j < n
        invariant
            n == chars@.len(),
            tail <= n,
            n - tail <= j <= n,
            out@ == mid + chars@.subrange(n - tail, j as int),
        decreases n - j,
    {
        out.push(chars[j]);
        assert(chars@.subrange(n - tail, j + 1) == chars@.subrange(n - tail, j as int).push(chars@[j as int]));
        j += 1;
    }
    assert(chars@.subrange(n - tail, n as int) == chars@.skip(n - tail));
    string_of(&out)
}


/// A shortened label is at most `max` characters long, and a label that fits
/// is left alone.
pub proof fn lemma_ellipsized_fits(s: Seq<char>, max: nat)
    requires
        s.len() <= max || max >= 5,
    ensures
        ellipsized(s, max).len() <= max,
        s.len() <= max ==> ellipsized(s, max) == s,
{
}


/// `s` with every `|` escaped as `\|`, fit for a Markdown table cell.
pub open spec fn pipes_escaped(s: Seq<char>) -> Seq<char>
    decreases s.len(),
{
    if s.len() == 0 {
        s
    } else if s.last() == '|' {
        pipes_escaped(s.drop_last()) + seq!['\\', '|']
    } else {
        pipes_escaped(s.drop_last()).push(s.last())
    }
}

/// Escapes `|` for a Markdown table cell.
pub fn escape_pipes(text: &str) -> (out: String)
    ensures
        out@ == pipes_escaped(text@),
{
    let chars = chars_of(text);
    let mut out: Vec<char> = Vec::new();
    let mut i: usize = 0;
    while i < chars.len()
        invariant
            i <= chars@.len(),
            chars@ == text@,
            out@ == pipes_escaped(chars@.take(i as int)),
        decreases chars.len() - i,
    {
        let c = chars[i];
        assert(chars@.take(i + 1).drop_last() == chars@.take(i as int));
        if c == '|' {
            out.push('\\');
            out.push('|');
            assert(out@ == pipes_escaped(chars@.take(i as int)) + seq!['\\', '|']);
        } else {
            out.push(c);
        }
        i += 1;
    }
    assert(chars@.take(chars@.len() as int) == chars@);
    string_of(&out)
}

/// The strings of `items` with `sep` between each two.
pub open spec fn joined_with(items: Seq<Seq<char>>, sep: Seq<char>) -> Seq<char>
    decreases items.len(),
{
    if items.len() == 0 {
        Seq::empty()
    } else if items.len() == 1 {
        items[0]
    } else {
        joined_with(items.drop_last(), sep) + sep + items.last()
    }
}

/// Joins `items` with `sep` between each two (tags as `a, b`).
pub fn join_with(items: &Vec<String>, sep: &str) -> (out: String)
    ensures
        out@ == joined_with(crate::text::views(items@), sep@),
{
    let sepc = chars_of(sep);
    let mut out: Vec<char> = Vec::new();
    let n = items.len();
    let mut i: usize = 0;
    while i < n
        invariant
            n == items@.len(),
            i <= n,
            sepc@ == sep@,
            out@ == joined_with(crate::text::views(items@.take(i as int)), sep@),
        decreases n - i,
    {
        let ghost before = out@;
        if i > 0 {
            append_chars(&mut out, &sepc);
        }
        let item = chars_of(items[i].as_str());
        append_chars(&mut out, &item);
        proof {
            let v = crate::text::views(items@.take(i + 1));
            assert(v.drop_last() =~= crate::text::views(items@.take(i as int)));
            assert(v.last() == items@[i as int]@);
            if i == 0 {
                assert(v.len() == 1);
            }
        }
        i += 1;
    }
    assert(items@.take(n as int) == items@);
    string_of(&out)
}

fn append_chars(out: &mut Vec<char>, more: &Vec<char>)
    ensures
        final(out)@ == old(out)@ + more@,
{
    let ghost before = out@;
    let mut i: usize = 0;
    while i < more.len()
        invariant
            i <= more@.len(),
            out@ == before + more@.take(i as int),
        decreases more.len() - i,
    {
        out.push(more[i]);
        assert(more@.take(i + 1) == more@.take(i as int).push(more@[i as int]));
        i += 1;
    }
    assert(more@.take(more@.len() as int) == more@);
}

} // verus!

//! Turning entry HTML into reader content: ordered runs of plain text and
//! image URLs. Tags are stripped (block tags become line breaks), entities
//! are decoded, and control characters are dropped so a hostile feed cannot
//! smuggle terminal escape sequences into the reader.

use vstd::prelude::*;
use crate::text::{
    ascii_lower, ascii_lower_seq, char_is_control, char_is_ws, is_ascii_alnum, is_ws, chars_to_string, is_control, lower_char, skip_ws_backward,
    skip_ws_forward, str_chars, str_eq, string_push, trim, trim_end, trim_start,
};

verus! {

// ---------------------------------------------------------------- tag names

/// Separators that end a tag name.
pub open spec fn is_tag_sep(c: char) -> bool {
    c == ' ' || c == '\t' || c == '\n' || c == '/'
}

/// `t` without its leading `/` characters.
pub open spec fn strip_slashes(t: Seq<char>) -> Seq<char>
    decreases t.len(),
{
    if t.len() > 0 && t[0] == '/' {
        strip_slashes(t.drop_first())
    } else {
        t
    }
}

/// The first position at or after `i` holding a tag separator, or the end.
pub open spec fn sep_from(t: Seq<char>, i: int) -> int
    decreases t.len() - i,
{
    if i >= t.len() {
        t.len() as int
    } else if is_tag_sep(t[i]) {
        i
    } else {
        sep_from(t, i + 1)
    }
}

/// The lowercased tag name of a tag's inner text (e.g. `/P class=x` → `p`).
pub open spec fn tag_name_spec(t: Seq<char>) -> Seq<char> {
    let u = strip_slashes(t);
    ascii_lower_seq(u.take(sep_from(u, 0)))
}

/// The tags rendered as line breaks.
pub open spec fn is_block_name(n: Seq<char>) -> bool {
    n == "p"@ || n == "br"@ || n == "div"@ || n == "li"@ || n == "tr"@ || n == "ul"@ || n == "ol"@
        || n == "h1"@ || n == "h2"@ || n == "h3"@ || n == "h4"@ || n == "h5"@ || n == "h6"@ || n
        == "blockquote"@ || n == "section"@ || n == "article"@ || n == "header"@ || n == "footer"@
        || n == "hr"@ || n == "pre"@ || n == "table"@
}

proof fn lemma_sep_from_bounds(t: Seq<char>, i: int)
    requires
        0 <= i <= t.len(),
    ensures
        i <= sep_from(t, i) <= t.len(),
    decreases t.len() - i,
{
    if i < t.len() && !is_tag_sep(t[i]) {
        lemma_sep_from_bounds(t, i + 1);
    }
}

/// The tag name of `v[lo..hi]`.
pub fn tag_name_of(v: &Vec<char>, lo: usize, hi: usize) -> (r: String)
    requires
        lo <= hi <= v@.len(),
    ensures
        r@ == tag_name_spec(v@.subrange(lo as int, hi as int)),
{
    let ghost t = v@.subrange(lo as int, hi as int);
    let mut a = lo;
    while a < hi && v[a] == '/'
        invariant
            lo <= a <= hi <= v@.len(),
            strip_slashes(t) == strip_slashes(v@.subrange(a as int, hi as int)),
        decreases hi - a,
    {
        proof {
            assert(v@.subrange(a as int, hi as int).drop_first() == v@.subrange(a + 1, hi as int));
        }
        a += 1;
    }
    let ghost u = v@.subrange(a as int, hi as int);
    proof {
        assert(strip_slashes(u) == u);
    }
    let mut b = a;
    while b < hi && !(v[b] == ' ' || v[b] == '\t' || v[b] == '\n' || v[b] == '/')
        invariant
            a <= b <= hi <= v@.len(),
            u == v@.subrange(a as int, hi as int),
            sep_from(u, 0) == sep_from(u, b - a),
        decreases hi - b,
    {
        proof {
            assert(u[b - a] == v@[b as int]);
        }
        b += 1;
    }
    proof {
        if b < hi {
            assert(u[b - a] == v@[b as int]);
        }
        assert(sep_from(u, b - a) == b - a);
    }
    let mut out = String::new();
    let mut k = a;
    while k < b
        invariant
            a <= k <= b <= hi <= v@.len(),
            u == v@.subrange(a as int, hi as int),
            sep_from(u, 0) == b - a,
            out@ == ascii_lower_seq(u.take(k - a)),
        decreases b - k,
    {
        let c = lower_char(v[k]);
        string_push(&mut out, c);
        proof {
            assert(u.take(k + 1 - a) == u.take(k - a).push(v@[k as int]));
            assert(ascii_lower_seq(u.take(k + 1 - a)) =~= ascii_lower_seq(u.take(k - a)).push(c));
        }
        k += 1;
    }
    out
}

/// The lowercased tag name (e.g. `</P >` → `p`).
pub fn tag_name(tag: &str) -> (r: String)
    ensures
        r@ == tag_name_spec(tag@),
{
    let v = str_chars(tag);
    proof {
        assert(v@.subrange(0, v@.len() as int) == v@);
    }
    tag_name_of(&v, 0, v.len())
}

fn name_is_block(n: &String) -> (r: bool)
    ensures
        r == is_block_name(n@),
{
    let s = n.as_str();
    str_eq(s, "p") || str_eq(s, "br") || str_eq(s, "div") || str_eq(s, "li") || str_eq(s, "tr")
        || str_eq(s, "ul") || str_eq(s, "ol") || str_eq(s, "h1") || str_eq(s, "h2") || str_eq(
        s,
        "h3",
    ) || str_eq(s, "h4") || str_eq(s, "h5") || str_eq(s, "h6") || str_eq(s, "blockquote")
        || str_eq(s, "section") || str_eq(s, "article") || str_eq(s, "header") || str_eq(
        s,
        "footer",
    ) || str_eq(s, "hr") || str_eq(s, "pre") || str_eq(s, "table")
}

/// Whether a tag (its inner text) is a block tag rendered as a line break.
pub fn is_block_tag(tag: &str) -> (r: bool)
    ensures
        r == is_block_name(tag_name_spec(tag@)),
{
    let n = tag_name(tag);
    name_is_block(&n)
}

// ------------------------------------------------------------------ sanitize

/// Characters the reader body keeps: newline, tab, and every non-control.
pub open spec fn keep_body_char(c: char) -> bool {
    c == '\n' || c == '\t' || !is_control(c)
}

/// `s` split at every `\n` (one more piece than there are newlines).
pub open spec fn split_nl(s: Seq<char>) -> Seq<Seq<char>>
    decreases s.len(),
{
    if s.len() == 0 {
        seq![seq![]]
    } else if s.last() == '\n' {
        split_nl(s.drop_last()).push(seq![])
    } else {
        let p = split_nl(s.drop_last());
        p.update(p.len() - 1, p.last().push(s.last()))
    }
}

/// `str::lines` (with no `\r`): the pieces between newlines, without an empty
/// piece after a final newline; nothing at all for the empty string.
pub open spec fn lines_of(s: Seq<char>) -> Seq<Seq<char>> {
    if s.len() == 0 {
        seq![]
    } else if s.last() == '\n' {
        split_nl(s.drop_last())
    } else {
        split_nl(s)
    }
}

/// Trim each line's end and collapse runs of blank lines into one.
pub open spec fn collapse(lines: Seq<Seq<char>>, prev_blank: bool) -> Seq<Seq<char>>
    decreases lines.len(),
{
    if lines.len() == 0 {
        seq![]
    } else {
        let t = trim_end(lines[0]);
        let blank = trim(t).len() == 0;
        if blank && prev_blank {
            collapse(lines.drop_first(), prev_blank)
        } else {
            seq![t] + collapse(lines.drop_first(), blank)
        }
    }
}

/// Lines joined with `\n`.
pub open spec fn join_nl(lines: Seq<Seq<char>>) -> Seq<char>
    decreases lines.len(),
{
    if lines.len() == 0 {
        seq![]
    } else if lines.len() == 1 {
        lines[0]
    } else {
        join_nl(lines.drop_last()) + seq!['\n'] + lines.last()
    }
}

/// The tidy reader body text: control characters (but newline and tab)
/// dropped, line ends trimmed, blank-line runs collapsed, ends trimmed.
pub open spec fn sanitize_spec(s: Seq<char>) -> Seq<char> {
    trim(join_nl(collapse(lines_of(s.filter(|c: char| keep_body_char(c))), false)))
}

/// The views of a vector of character vectors.
pub open spec fn views(v: Seq<Vec<char>>) -> Seq<Seq<char>> {
    v.map_values(|l: Vec<char>| l@)
}

pub(crate) fn split_lines(s: &Vec<char>) -> (r: Vec<Vec<char>>)
    ensures
        views(r@) == lines_of(s@),
{
    let mut lines: Vec<Vec<char>> = Vec::new();
    lines.push(Vec::new());
    let mut i: usize = 0;
    proof {
        assert(views(lines@) =~= split_nl(s@.take(0)));
    }
    while i < s.len()
        invariant
            0 <= i <= s@.len(),
            views(lines@) == split_nl(s@.take(i as int)),
            lines@.len() >= 1,
        decreases s@.len() - i,
    {
        proof {
            assert(s@.take(i + 1).drop_last() == s@.take(i as int));
            assert(s@.take(i + 1).last() == s@[i as int]);
        }
        if s[i] == '\n' {
            lines.push(Vec::new());
            proof {
                assert(views(lines@) =~= split_nl(s@.take(i as int)).push(seq![]));
            }
        } else {
            let mut last = lines.pop().unwrap();
            last.push(s[i]);
            lines.push(last);
            proof {
                let p = split_nl(s@.take(i as int));
                assert(views(lines@) =~= p.update(p.len() - 1, p.last().push(s@[i as int])));
            }
        }
        i += 1;
    }
    proof {
        assert(s@.take(s@.len() as int) == s@);
    }
    if s.len() == 0 {
        return Vec::new();
    }
    if s[s.len() - 1] == '\n' {
        let ghost before = views(lines@);
        lines.pop();
        proof {
            assert(before == split_nl(s@.drop_last()).push(seq![]));
            assert(views(lines@) =~= before.drop_last());
        }
    }
    lines
}

proof fn lemma_trim_end_idempotent(x: Seq<char>)
    ensures
        trim_end(trim_end(x)) == trim_end(x),
    decreases x.len(),
{
    if x.len() > 0 && crate::text::is_ws(x.last()) {
        lemma_trim_end_idempotent(x.drop_last());
    }
}

fn is_blank_range(v: &Vec<char>, lo: usize, hi: usize) -> (r: bool)
    requires
        lo <= hi <= v@.len(),
    ensures
        r == (trim_start(v@.subrange(lo as int, hi as int)).len() == 0),
{
    let k = skip_ws_forward(v, lo, hi);
    k == hi
}

/// Drop control characters (keeping `\n`/`\t`), trim line ends, and collapse
/// runs of blank lines so the reader body stays tidy and escape-free.
pub fn sanitize(s: &str) -> (r: String)
    ensures
        r@ == sanitize_spec(s@),
{
    let v = str_chars(s);
    let mut cleaned: Vec<char> = Vec::new();
    let mut i: usize = 0;
    while i < v.len()
        invariant
            0 <= i <= v@.len(),
            v@ == s@,
            cleaned@ == v@.take(i as int).filter(|c: char| keep_body_char(c)),
        decreases v@.len() - i,
    {
        let c = v[i];
        proof {
            assert(v@.take(i + 1).drop_last() == v@.take(i as int));
            reveal(Seq::filter);
        }
        if c == '\n' || c == '\t' || !char_is_control(c) {
            cleaned.push(c);
        }
        i += 1;
    }
    proof {
        assert(v@.take(v@.len() as int) == v@);
    }
    let lines = split_lines(&cleaned);
    let ghost all = views(lines@);
    let mut joined: Vec<char> = Vec::new();
    let ghost mut emitted: Seq<Seq<char>> = seq![];
    let mut prev_blank = false;
    let mut any = false;
    let mut j: usize = 0;
    proof {
        assert(all.skip(0) == all);
    }
    while j < lines.len()
        invariant
            0 <= j <= lines@.len(),
            all == views(lines@),
            collapse(all, false) == emitted + collapse(all.skip(j as int), prev_blank),
            joined@ == join_nl(emitted),
            any == (emitted.len() > 0),
        decreases lines@.len() - j,
    {
        let line = &lines[j];
        let end = skip_ws_backward(line, 0, line.len());
        let blank = is_blank_range(line, 0, end);
        let ghost t = line@.subrange(0, end as int);
        proof {
            assert(line@.subrange(0, line@.len() as int) == line@);
            assert(all.skip(j as int)[0] == line@);
            assert(all.skip(j as int).drop_first() == all.skip(j + 1));
            lemma_trim_end_idempotent(line@);
            assert(trim(t) == trim_start(t));
        }
        if !(blank && prev_blank) {
            if any {
                joined.push('\n');
            }
            let mut k: usize = 0;
            let ghost base = joined@;
            while k < end
                invariant
                    0 <= k <= end <= line@.len(),
                    joined@ == base + line@.subrange(0, k as int),
                decreases end - k,
            {
                joined.push(line[k]);
                proof {
                    assert(line@.subrange(0, k + 1) == line@.subrange(0, k as int).push(line@[k as int]));
                }
                k += 1;
            }
            proof {
                assert(emitted + (seq![t] + collapse(all.skip(j + 1), blank)) == emitted.push(t)
                    + collapse(all.skip(j + 1), blank));
                let e2 = emitted.push(t);
                assert(e2.drop_last() == emitted);
                if emitted.len() > 0 {
                    assert(joined@ =~= join_nl(emitted) + seq!['\n'] + t);
                } else {
                    assert(joined@ =~= t);
                }
                emitted = e2;
            }
            prev_blank = blank;
            any = true;
        }
        j += 1;
    }
    proof {
        assert(all.skip(lines@.len() as int).len() == 0);
        assert(emitted + Seq::<Seq<char>>::empty() == emitted);
    }
    let hi = skip_ws_backward(&joined, 0, joined.len());
    let lo = skip_ws_forward(&joined, 0, hi);
    proof {
        assert(joined@.subrange(0, joined@.len() as int) == joined@);
    }
    chars_to_string(&joined, lo, hi)
}

} // verus!

verus! {

// ------------------------------------------------------------------ entities

/// The value of `c` as a digit in base 10 or 16, if it is one.
pub open spec fn digit_in(c: char, radix: u32) -> Option<nat> {
    if '0' <= c && c <= '9' {
        Some(((c as u32) - ('0' as u32)) as nat)
    } else if radix == 16 && 'a' <= c && c <= 'f' {
        Some(((c as u32) - ('a' as u32) + 10) as nat)
    } else if radix == 16 && 'A' <= c && c <= 'F' {
        Some(((c as u32) - ('A' as u32) + 10) as nat)
    } else {
        None
    }
}

/// The value of a run of digits in `radix`.
pub open spec fn radix_value(s: Seq<char>, radix: u32) -> nat
    decreases s.len(),
{
    if s.len() == 0 {
        0
    } else {
        radix_value(s.drop_last(), radix) * (radix as nat) + match digit_in(s.last(), radix) {
            Some(d) => d,
            None => 0,
        }
    }
}

/// What `u32::from_str_radix` gives for base 10 or 16: an optional leading
/// `+`, then one or more digits whose value fits in a `u32`.
pub open spec fn parse_radix_spec(s: Seq<char>, radix: u32) -> Option<u32> {
    radix_digits_spec(
        if s.len() > 0 && s[0] == '+' {
            s.drop_first()
        } else {
            s
        },
        radix,
    )
}

/// The value of a sign-less run of `radix` digits that fits in a `u32`.
pub open spec fn radix_digits_spec(t: Seq<char>, radix: u32) -> Option<u32> {
    if t.len() == 0 || !(forall|i: int| 0 <= i < t.len() ==> (#[trigger] digit_in(t[i], radix)) is Some) {
        None
    } else if radix_value(t, radix) > u32::MAX {
        None
    } else {
        Some(radix_value(t, radix) as u32)
    }
}

/// Whether `v` is a Unicode scalar value (what `char::from_u32` accepts).
pub open spec fn is_scalar(v: u32) -> bool {
    v < 0xD800 || (0xE000 <= v && v < 0x110000)
}

/// The text a named or numeric character reference (without `&` and `;`)
/// stands for, or `None` when it is not one we know.
pub open spec fn decode_entity_spec(e: Seq<char>) -> Option<Seq<char>> {
    if e == "amp"@ {
        Some("&"@)
    } else if e == "lt"@ {
        Some("<"@)
    } else if e == "gt"@ {
        Some(">"@)
    } else if e == "quot"@ {
        Some("\""@)
    } else if e == "apos"@ {
        Some("'"@)
    } else if e == "nbsp"@ {
        Some(" "@)
    } else if e == "mdash"@ {
        Some("—"@)
    } else if e == "ndash"@ {
        Some("–"@)
    } else if e == "hellip"@ {
        Some("…"@)
    } else if e == "rsquo"@ || e == "lsquo"@ {
        Some("'"@)
    } else if e == "ldquo"@ || e == "rdquo"@ {
        Some("\""@)
    } else if e == "copy"@ {
        Some("©"@)
    } else if e == "trade"@ {
        Some("™"@)
    } else {
        let code = if e.len() >= 2 && e[0] == '#' && (e[1] == 'x' || e[1] == 'X') {
            parse_radix_spec(e.skip(2), 16)
        } else if e.len() >= 1 && e[0] == '#' {
            parse_radix_spec(e.skip(1), 10)
        } else {
            None
        };
        match code {
            Some(v) => if is_scalar(v) {
                Some(seq![v as char])
            } else {
                None
            },
            None => None,
        }
    }
}

/// The character with scalar value `v` (`char::from_u32`).
#[verifier::external_body]
fn char_from_u32(v: u32) -> (r: Option<char>)
    ensures
        r == (if is_scalar(v) {
            Some(v as char)
        } else {
            None
        }),
{
    char::from_u32(v)
}

fn digit_value_in(c: char, radix: u32) -> (r: Option<u32>)
    requires
        radix == 10 || radix == 16,
    ensures
        match digit_in(c, radix) {
            Some(d) => r == Some(d as u32),
            None => r is None,
        },
{
    if '0' <= c && c <= '9' {
        Some(c as u32 - '0' as u32)
    } else if radix == 16 && 'a' <= c && c <= 'f' {
        Some(c as u32 - 'a' as u32 + 10)
    } else if radix == 16 && 'A' <= c && c <= 'F' {
        Some(c as u32 - 'A' as u32 + 10)
    } else {
        None
    }
}

fn radix_digits(t: &Vec<char>, radix: u32) -> (r: Option<u32>)
    requires
        radix == 10 || radix == 16,
    ensures
        r == radix_digits_spec(t@, radix),
{
    if t.len() == 0 {
        return None;
    }
    let mut acc: u32 = 0;
    let mut overflow = false;
    let mut i: usize = 0;
    while i < t.len()
        invariant
            0 <= i <= t@.len(),
            radix == 10 || radix == 16,
            forall|k: int| 0 <= k < i ==> (#[trigger] digit_in(t@[k], radix)) is Some,
            !overflow ==> acc as nat == radix_value(t@.take(i as int), radix),
            overflow ==> radix_value(t@.take(i as int), radix) > u32::MAX,
        decreases t@.len() - i,
    {
        let d = match digit_value_in(t[i], radix) {
            Some(d) => d,
            None => {
                proof {
                    assert(!(digit_in(t@[i as int], radix) is Some));
                }
                return None;
            },
        };
        proof {
            assert(t@.take(i + 1).drop_last() == t@.take(i as int));
            assert(t@.take(i + 1).last() == t@[i as int]);
        }
        let ghost prev = radix_value(t@.take(i as int), radix);
        if !overflow {
            let lim: u32 = (u32::MAX - d) / radix;
            if acc > lim {
                overflow = true;
                assert(acc * radix + d > u32::MAX) by (nonlinear_arith)
                    requires
                        acc > lim,
                        lim as int == (u32::MAX as int - d as int) / (radix as int),
                        radix > 0,
                        d <= u32::MAX,
                ;
            } else {
                assert(acc * radix + d <= u32::MAX) by (nonlinear_arith)
                    requires
                        acc <= lim,
                        lim as int == (u32::MAX as int - d as int) / (radix as int),
                        radix > 0,
                        d <= u32::MAX,
                ;
                acc = acc * radix + d;
            }
        } else {
            assert(prev * radix + d > u32::MAX) by (nonlinear_arith)
                requires
                    prev > u32::MAX,
                    radix >= 10,
            ;
        }
        i += 1;
    }
    proof {
        assert(t@.take(t@.len() as int) == t@);
    }
    if overflow {
        None
    } else {
        Some(acc)
    }
}

/// `u32::from_str_radix` (base 10 or 16) on `v[lo..hi]`.
pub fn parse_radix_u32(v: &Vec<char>, lo: usize, hi: usize, radix: u32) -> (r: Option<u32>)
    requires
        lo <= hi <= v@.len(),
        radix == 10 || radix == 16,
    ensures
        r == parse_radix_spec(v@.subrange(lo as int, hi as int), radix),
{
    let ghost s = v@.subrange(lo as int, hi as int);
    let start = if lo < hi && v[lo] == '+' {
        lo + 1
    } else {
        lo
    };
    let mut t: Vec<char> = Vec::new();
    let mut k = start;
    while k < hi
        invariant
            lo <= start <= k <= hi <= v@.len(),
            t@ == v@.subrange(start as int, k as int),
        decreases hi - k,
    {
        t.push(v[k]);
        proof {
            assert(v@.subrange(start as int, k + 1) == v@.subrange(start as int, k as int).push(v@[k as int]));
        }
        k += 1;
    }
    proof {
        if lo < hi && v@[lo as int] == '+' {
            assert(s[0] == '+');
            assert(t@ == s.drop_first());
        } else {
            assert(t@ == s);
        }
    }
    radix_digits(&t, radix)
}

fn lit(s: &str) -> (r: Option<String>)
    ensures
        r matches Some(x) && x@ == s@,
{
    Some(String::from_str(s))
}

/// Decode one character reference (the text between `&` and `;`).
pub fn decode_entity(ent: &str) -> (r: Option<String>)
    ensures
        match decode_entity_spec(ent@) {
            Some(t) => r matches Some(x) && x@ == t,
            None => r is None,
        },
{
    if str_eq(ent, "amp") {
        lit("&")
    } else if str_eq(ent, "lt") {
        lit("<")
    } else if str_eq(ent, "gt") {
        lit(">")
    } else if str_eq(ent, "quot") {
        lit("\"")
    } else if str_eq(ent, "apos") {
        lit("'")
    } else if str_eq(ent, "nbsp") {
        lit(" ")
    } else if str_eq(ent, "mdash") {
        lit("—")
    } else if str_eq(ent, "ndash") {
        lit("–")
    } else if str_eq(ent, "hellip") {
        lit("…")
    } else if str_eq(ent, "rsquo") || str_eq(ent, "lsquo") {
        lit("'")
    } else if str_eq(ent, "ldquo") || str_eq(ent, "rdquo") {
        lit("\"")
    } else if str_eq(ent, "copy") {
        lit("©")
    } else if str_eq(ent, "trade") {
        lit("™")
    } else {
        let v = str_chars(ent);
        let code = if v.len() >= 2 && v[0] == '#' && (v[1] == 'x' || v[1] == 'X') {
            parse_radix_u32(&v, 2, v.len(), 16)
        } else if v.len() >= 1 && v[0] == '#' {
            parse_radix_u32(&v, 1, v.len(), 10)
        } else {
            None
        };
        proof {
            assert(v@.subrange(2, v@.len() as int) == ent@.skip(2));
            assert(v@.subrange(1, v@.len() as int) == ent@.skip(1));
        }
        match code {
            Some(c) => match char_from_u32(c) {
                Some(ch) => {
                    let mut out = String::new();
                    string_push(&mut out, ch);
                    proof {
                        assert(out@ =~= seq![ch]);
                    }
                    Some(out)
                },
                None => None,
            },
            None => None,
        }
    }
}

/// Where the scan for a reference's name stops: at a `;` or `&`, the end of
/// the text, or after twelve characters.
pub open spec fn scan_end(s: Seq<char>, j: int, limit: int) -> int
    decreases limit - j,
{
    if j >= limit || j >= s.len() || s[j] == ';' || s[j] == '&' {
        j
    } else {
        scan_end(s, j + 1, limit)
    }
}

/// Decode the character references of `s` from position `i` on. A reference
/// is `&name;` with at most twelve name characters; an unknown or unfinished
/// one is kept as written.
pub open spec fn decode_from(s: Seq<char>, i: int) -> Seq<char>
    decreases s.len() - i,
{
    if i < 0 || i >= s.len() {
        seq![]
    } else if s[i] != '&' {
        seq![s[i]] + decode_from(s, i + 1)
    } else {
        let j = scan_end(s, i + 1, i + 13);
        let ent = s.subrange(i + 1, j);
        let term = j < i + 13 && j < s.len() && s[j] == ';';
        let next = if term {
            j + 1
        } else {
            j
        };
        (if term && decode_entity_spec(ent) is Some {
            decode_entity_spec(ent)->0
        } else {
            seq!['&'] + ent + (if term {
                seq![';']
            } else {
                seq![]
            })
        }) + if i < next && next <= s.len() {
            decode_from(s, next)
        } else {
            seq![]
        }
    }
}

proof fn lemma_scan_end_bounds(s: Seq<char>, j: int, limit: int)
    requires
        0 <= j <= s.len(),
    ensures
        j <= scan_end(s, j, limit) <= s.len(),
        scan_end(s, j, limit) <= limit || scan_end(s, j, limit) == j,
    decreases limit - j,
{
    if !(j >= limit || j >= s.len() || s[j] == ';' || s[j] == '&') {
        lemma_scan_end_bounds(s, j + 1, limit);
    }
}

fn entity_at(v: &Vec<char>, i: usize) -> (r: (String, usize))
    requires
        i < v@.len(),
        v@[i as int] == '&',
    ensures
        i < r.1 <= v@.len(),
        decode_from(v@, i as int) == r.0@ + decode_from(v@, r.1 as int),
{
    let _n = v.len();
    let mut j = i + 1;
    while j < v.len() && j - i < 13 && v[j] != ';' && v[j] != '&'
        invariant
            i + 1 <= j <= v@.len(),
            j <= i + 13,
            scan_end(v@, i + 1, i + 13) == scan_end(v@, j as int, i + 13),
        decreases v@.len() - j,
    {
        j += 1;
    }
    let term = j - i < 13 && j < v.len() && v[j] == ';';
    let ent = chars_to_string(v, i + 1, j);
    let decoded = if term {
        decode_entity(ent.as_str())
    } else {
        None
    };
    let mut piece = String::new();
    match decoded {
        Some(d) => {
            piece.append(d.as_str());
        },
        None => {
            string_push(&mut piece, '&');
            piece.append(ent.as_str());
            if term {
                string_push(&mut piece, ';');
            }
        },
    }
    let next = if term {
        j + 1
    } else {
        j
    };
    proof {
        assert(Seq::<char>::empty() + piece@ == piece@);
    }
    (piece, next)
}

/// Decode the character references in `s`.
pub fn decode_entities(s: &str) -> (r: String)
    ensures
        r@ == decode_from(s@, 0),
{
    let v = str_chars(s);
    let mut out = String::new();
    let mut i: usize = 0;
    while i < v.len()
        invariant
            0 <= i <= v@.len(),
            v@ == s@,
            decode_from(v@, 0) == out@ + decode_from(v@, i as int),
        decreases v@.len() - i,
    {
        let ghost before = out@;
        if v[i] != '&' {
            string_push(&mut out, v[i]);
            proof {
                assert(before + (seq![v@[i as int]] + decode_from(v@, i + 1)) == out@ + decode_from(
                    v@,
                    i + 1,
                ));
            }
            i += 1;
        } else {
            let (piece, next) = entity_at(&v, i);
            out.append(piece.as_str());
            proof {
                assert(before + (piece@ + decode_from(v@, next as int)) == out@ + decode_from(
                    v@,
                    next as int,
                ));
            }
            i = next;
        }
    }
    proof {
        assert(out@ + Seq::<char>::empty() == out@);
    }
    out
}

} // verus!

verus! {

// ---------------------------------------------------------------- img src

/// Whether `src` (any ASCII case) starts at position `p` of `t`.
pub open spec fn src_at(t: Seq<char>, p: int) -> bool {
    0 <= p && p + 3 <= t.len() && ascii_lower(t[p]) == 's' && ascii_lower(t[p + 1]) == 'r'
        && ascii_lower(t[p + 2]) == 'c'
}

/// The first position at or after `from` where `src` starts, or -1.
pub open spec fn find_src(t: Seq<char>, from: int) -> int
    decreases t.len() - from,
{
    if from < 0 || from + 3 > t.len() {
        -1
    } else if src_at(t, from) {
        from
    } else {
        find_src(t, from + 1)
    }
}

/// The first position at or after `i` that is not a space or tab.
pub open spec fn skip_blank(t: Seq<char>, i: int) -> int
    decreases t.len() - i,
{
    if i < t.len() && (t[i] == ' ' || t[i] == '\t') {
        skip_blank(t, i + 1)
    } else {
        i
    }
}

/// The first position at or after `i` holding `c`, or the end.
pub open spec fn find_char(t: Seq<char>, c: char, i: int) -> int
    decreases t.len() - i,
{
    if i >= t.len() {
        t.len() as int
    } else if t[i] == c {
        i
    } else {
        find_char(t, c, i + 1)
    }
}

/// The first whitespace position at or after `i`, or the end.
pub open spec fn find_ws(t: Seq<char>, i: int) -> int
    decreases t.len() - i,
{
    if i >= t.len() {
        t.len() as int
    } else if is_ws(t[i]) {
        i
    } else {
        find_ws(t, i + 1)
    }
}

/// The attribute value starting at `j`: a quoted string up to its closing
/// quote, or an unquoted run up to whitespace, trimmed.
pub open spec fn attr_value(t: Seq<char>, j: int) -> Seq<char> {
    if j < t.len() && (t[j] == '"' || t[j] == '\'') {
        trim(t.subrange(j + 1, find_char(t, t[j], j + 1)))
    } else {
        trim(t.subrange(j, find_ws(t, j)))
    }
}

/// The `src` attribute of an `<img …>` tag's inner text, ignoring lookalike
/// attributes such as `srcset`; `None` when there is no usable `src`.
pub open spec fn extract_src_from(t: Seq<char>, from: int) -> Option<Seq<char>>
    decreases t.len() - from,
{
    let pos = find_src(t, from);
    if pos < 0 || pos < from {
        None
    } else {
        let boundary = pos == 0 || !is_ascii_alnum(t[pos - 1]);
        let i = skip_blank(t, pos + 3);
        if boundary && i < t.len() && t[i] == '=' {
            let v = attr_value(t, skip_blank(t, i + 1));
            if v.len() > 0 {
                Some(v)
            } else {
                None
            }
        } else if pos + 3 <= t.len() {
            extract_src_from(t, pos + 3)
        } else {
            None
        }
    }
}

proof fn lemma_find_src(t: Seq<char>, from: int)
    requires
        0 <= from,
    ensures
        find_src(t, from) >= 0 ==> from <= find_src(t, from) && src_at(t, find_src(t, from)),
    decreases t.len() - from,
{
    if from + 3 <= t.len() && !src_at(t, from) {
        lemma_find_src(t, from + 1);
    }
}

proof fn lemma_skip_blank(t: Seq<char>, i: int)
    requires
        0 <= i <= t.len(),
    ensures
        i <= skip_blank(t, i) <= t.len(),
    decreases t.len() - i,
{
    if i < t.len() && (t[i] == ' ' || t[i] == '\t') {
        lemma_skip_blank(t, i + 1);
    }
}

proof fn lemma_find_char(t: Seq<char>, c: char, i: int)
    requires
        0 <= i <= t.len(),
    ensures
        i <= find_char(t, c, i) <= t.len(),
    decreases t.len() - i,
{
    if i < t.len() && t[i] != c {
        lemma_find_char(t, c, i + 1);
    }
}

proof fn lemma_find_ws(t: Seq<char>, i: int)
    requires
        0 <= i <= t.len(),
    ensures
        i <= find_ws(t, i) <= t.len(),
    decreases t.len() - i,
{
    if i < t.len() && !is_ws(t[i]) {
        lemma_find_ws(t, i + 1);
    }
}

fn find_src_exec(t: &Vec<char>, from: usize) -> (r: Option<usize>)
    requires
        from <= t@.len(),
    ensures
        match r {
            Some(p) => find_src(t@, from as int) == p as int,
            None => find_src(t@, from as int) < 0,
        },
{
    let mut p = from;
    while p < t.len() && t.len() - p >= 3
        invariant
            from <= p <= t@.len(),
            find_src(t@, from as int) == find_src(t@, p as int),
        decreases t@.len() - p,
    {
        if lower_char(t[p]) == 's' && lower_char(t[p + 1]) == 'r' && lower_char(t[p + 2]) == 'c' {
            return Some(p);
        }
        p += 1;
    }
    None
}

fn skip_blank_exec(t: &Vec<char>, i: usize) -> (r: usize)
    requires
        i <= t@.len(),
    ensures
        r as int == skip_blank(t@, i as int),
        i <= r <= t@.len(),
{
    let mut k = i;
    while k < t.len() && (t[k] == ' ' || t[k] == '\t')
        invariant
            i <= k <= t@.len(),
            skip_blank(t@, i as int) == skip_blank(t@, k as int),
        decreases t@.len() - k,
    {
        k += 1;
    }
    k
}

fn find_char_exec(t: &Vec<char>, c: char, i: usize) -> (r: usize)
    requires
        i <= t@.len(),
    ensures
        r as int == find_char(t@, c, i as int),
        i <= r <= t@.len(),
{
    let mut k = i;
    while k < t.len() && t[k] != c
        invariant
            i <= k <= t@.len(),
            find_char(t@, c, i as int) == find_char(t@, c, k as int),
        decreases t@.len() - k,
    {
        k += 1;
    }
    k
}

fn find_ws_exec(t: &Vec<char>, i: usize) -> (r: usize)
    requires
        i <= t@.len(),
    ensures
        r as int == find_ws(t@, i as int),
        i <= r <= t@.len(),
{
    let mut k = i;
    while k < t.len() && !char_is_ws(t[k])
        invariant
            i <= k <= t@.len(),
            find_ws(t@, i as int) == find_ws(t@, k as int),
        decreases t@.len() - k,
    {
        k += 1;
    }
    k
}

fn trim_range(t: &Vec<char>, lo: usize, hi: usize) -> (r: String)
    requires
        lo <= hi <= t@.len(),
    ensures
        r@ == trim(t@.subrange(lo as int, hi as int)),
{
    let e = skip_ws_backward(t, lo, hi);
    let b = skip_ws_forward(t, lo, e);
    proof {
        assert(t@.subrange(lo as int, hi as int).subrange(0, (e - lo) as int) == t@.subrange(
            lo as int,
            e as int,
        ));
    }
    chars_to_string(t, b, e)
}

fn is_alnum_char(c: char) -> (r: bool)
    ensures
        r == is_ascii_alnum(c),
{
    ('a' <= c && c <= 'z') || ('A' <= c && c <= 'Z') || ('0' <= c && c <= '9')
}

/// The `src` of an `<img>` tag held in `t` (its inner text).
pub fn extract_src_chars(t: &Vec<char>) -> (r: Option<String>)
    ensures
        match extract_src_from(t@, 0) {
            Some(u) => r matches Some(x) && x@ == u,
            None => r is None,
        },
{
    let _n = t.len();
    let mut from: usize = 0;
    loop
        invariant
            from <= t@.len(),
            extract_src_from(t@, 0) == extract_src_from(t@, from as int),
        decreases t@.len() - from,
    {
        let pos = match find_src_exec(t, from) {
            Some(p) => p,
            None => return None,
        };
        let _n = t.len();
        proof {
            lemma_find_src(t@, from as int);
        }
        let boundary = pos == 0 || !is_alnum_char(t[pos - 1]);
        let i = skip_blank_exec(t, pos + 3);
        if boundary && i < t.len() && t[i] == '=' {
            let j = skip_blank_exec(t, i + 1);
            let v = if j < t.len() && (t[j] == '"' || t[j] == '\'') {
                let end = find_char_exec(t, t[j], j + 1);
                trim_range(t, j + 1, end)
            } else {
                let end = find_ws_exec(t, j);
                trim_range(t, j, end)
            };
            if !v.as_str().is_empty() {
                return Some(v);
            } else {
                return None;
            }
        }
        from = pos + 3;
    }
}

/// Extract the `src` URL from an `<img …>` tag's inner text, ignoring
/// lookalike attributes such as `srcset`.
pub fn extract_img_src(tag: &str) -> (r: Option<String>)
    ensures
        match extract_src_from(tag@, 0) {
            Some(u) => r matches Some(x) && x@ == u,
            None => r is None,
        },
{
    let v = str_chars(tag);
    extract_src_chars(&v)
}

} // verus!

verus! {

// ------------------------------------------------------------- the pipeline

/// A piece of reader content in document order: a run of text, or an image.
#[derive(Debug)]
pub enum Segment {
    Text(String),
    Image(String),
}

/// The mathematical content of a [`Segment`].
pub enum SegmentView {
    Text(Seq<char>),
    Image(Seq<char>),
}

impl View for Segment {
    type V = SegmentView;

    open spec fn view(&self) -> SegmentView {
        match self {
            Segment::Text(s) => SegmentView::Text(s@),
            Segment::Image(s) => SegmentView::Image(s@),
        }
    }
}

/// The views of a sequence of segments.
pub open spec fn seg_views(s: Seq<Segment>) -> Seq<SegmentView> {
    s.map_values(|g: Segment| g@)
}

/// A finished text run: decoded, sanitized, and dropped when empty.
pub open spec fn flush_spec(text: Seq<char>) -> Seq<SegmentView> {
    let r = sanitize_spec(decode_from(text, 0));
    if r.len() == 0 {
        seq![]
    } else {
        seq![SegmentView::Text(r)]
    }
}

/// The segments of `h` from position `i` on, with `text` the run collected
/// so far: `<img>` tags end the run and become images, block tags become
/// line breaks, other tags vanish, and other characters join the run.
pub open spec fn blocks_from(h: Seq<char>, i: int, text: Seq<char>) -> Seq<SegmentView>
    decreases h.len() - i,
{
    if i < 0 || i >= h.len() {
        flush_spec(text)
    } else if h[i] == '<' {
        let j = find_char(h, '>', i + 1);
        let tag = h.subrange(i + 1, j);
        let next = if j < h.len() {
            j + 1
        } else {
            j
        };
        if next <= i || next > h.len() {
            flush_spec(text)
        } else if tag_name_spec(tag) == "img"@ {
            flush_spec(text) + (match extract_src_from(tag, 0) {
                Some(u) => seq![SegmentView::Image(u)],
                None => seq![],
            }) + blocks_from(h, next, seq![])
        } else if is_block_name(tag_name_spec(tag)) {
            blocks_from(h, next, text.push('\n'))
        } else {
            blocks_from(h, next, text)
        }
    } else {
        blocks_from(h, i + 1, text.push(h[i]))
    }
}

/// The reader segments of an entry's HTML.
pub open spec fn content_blocks_spec(h: Seq<char>) -> Seq<SegmentView> {
    blocks_from(h, 0, seq![])
}

fn flush(text: &Vec<char>, blocks: &mut Vec<Segment>)
    ensures
        seg_views(final(blocks)@) == seg_views(old(blocks)@) + flush_spec(text@),
{
    let s = chars_to_string(text, 0, text.len());
    proof {
        assert(text@.subrange(0, text@.len() as int) == text@);
    }
    let decoded = decode_entities(s.as_str());
    let rendered = sanitize(decoded.as_str());
    if !rendered.as_str().is_empty() {
        let ghost before = blocks@;
        blocks.push(Segment::Text(rendered));
        proof {
            assert(seg_views(blocks@) =~= seg_views(before).push(SegmentView::Text(rendered@)));
            assert(seg_views(before) + flush_spec(text@) =~= seg_views(before).push(
                SegmentView::Text(rendered@),
            ));
        }
    } else {
        proof {
            assert(seg_views(blocks@) + flush_spec(text@) =~= seg_views(blocks@));
        }
    }
}

fn str_is_img(n: &String) -> (r: bool)
    ensures
        r == (n@ == "img"@),
{
    str_eq(n.as_str(), "img")
}

fn chars_of(v: &Vec<char>, lo: usize, hi: usize) -> (r: Vec<char>)
    requires
        lo <= hi <= v@.len(),
    ensures
        r@ == v@.subrange(lo as int, hi as int),
{
    let mut r: Vec<char> = Vec::new();
    let mut k = lo;
    while k < hi
        invariant
            lo <= k <= hi <= v@.len(),
            r@ == v@.subrange(lo as int, k as int),
        decreases hi - k,
    {
        r.push(v[k]);
        proof {
            assert(v@.subrange(lo as int, k + 1) == v@.subrange(lo as int, k as int).push(v@[k as int]));
        }
        k += 1;
    }
    r
}

/// Split entry HTML into ordered text/image segments for the reader. Text
/// segments are tag-stripped, entity-decoded and control-character-stripped;
/// each `<img>` with a usable `src` becomes an image segment.
pub fn content_blocks(html: &str) -> (r: Vec<Segment>)
    ensures
        seg_views(r@) == content_blocks_spec(html@),
{
    let h = str_chars(html);
    let mut blocks: Vec<Segment> = Vec::new();
    let mut text: Vec<char> = Vec::new();
    let mut i: usize = 0;
    let _n = h.len();
    while i < h.len()
        invariant
            0 <= i <= h@.len(),
            h@ == html@,
            content_blocks_spec(h@) == seg_views(blocks@) + blocks_from(h@, i as int, text@),
        decreases h@.len() - i,
    {
        let ghost before = seg_views(blocks@);
        let ghost text0 = text@;
        if h[i] == '<' {
            let j = find_char_exec(&h, '>', i + 1);
            let next = if j < h.len() {
                j + 1
            } else {
                j
            };
            let tag = chars_of(&h, i + 1, j);
            let name = tag_name_of(&tag, 0, tag.len());
            proof {
                assert(tag@.subrange(0, tag@.len() as int) == tag@);
            }
            if str_is_img(&name) {
                flush(&text, &mut blocks);
                text = Vec::new();
                let src = extract_src_chars(&tag);
                match src {
                    Some(u) => {
                        let ghost mid = blocks@;
                        blocks.push(Segment::Image(u));
                        proof {
                            assert(seg_views(blocks@) =~= seg_views(mid).push(SegmentView::Image(u@)));
                        }
                    },
                    None => {},
                }
                proof {
                    let img = match extract_src_from(tag@, 0) {
                        Some(u) => seq![SegmentView::Image(u)],
                        None => seq![],
                    };
                    assert(seg_views(blocks@) =~= before + flush_spec(text0) + img);
                    assert(text@ == Seq::<char>::empty());
                    assert(before + (flush_spec(text0) + img + blocks_from(h@, next as int, seq![]))
                        =~= seg_views(blocks@) + blocks_from(h@, next as int, text@));
                }
            } else if name_is_block(&name) {
                text.push('\n');
            }
            i = next;
        } else {
            text.push(h[i]);
            i += 1;
        }
    }
    flush(&text, &mut blocks);
    blocks
}

} // verus!

verus! {

// ------------------------------------------------------------------ laws

/// Every character of `s` is one the reader body keeps.
pub open spec fn all_kept(s: Seq<char>) -> bool {
    forall|i: int| 0 <= i < s.len() ==> keep_body_char(#[trigger] s[i])
}

proof fn lemma_trim_start_suffix(s: Seq<char>)
    ensures
        trim_start(s).len() <= s.len(),
        trim_start(s) == s.skip(s.len() - trim_start(s).len()),
        trim_start(s).len() == 0 || !is_ws(trim_start(s)[0]),
    decreases s.len(),
{
    if s.len() > 0 && is_ws(s[0]) {
        lemma_trim_start_suffix(s.drop_first());
        assert(s.drop_first().skip(s.drop_first().len() - trim_start(s).len()) =~= s.skip(
            s.len() - trim_start(s).len(),
        ));
    } else {
        assert(s.skip(0) =~= s);
    }
}

proof fn lemma_trim_end_prefix(s: Seq<char>)
    ensures
        trim_end(s).len() <= s.len(),
        trim_end(s) == s.take(trim_end(s).len() as int),
        trim_end(s).len() == 0 || !is_ws(trim_end(s).last()),
    decreases s.len(),
{
    if s.len() > 0 && is_ws(s.last()) {
        lemma_trim_end_prefix(s.drop_last());
        assert(s.drop_last().take(trim_end(s).len() as int) =~= s.take(trim_end(s).len() as int));
    } else {
        assert(s.take(s.len() as int) =~= s);
    }
}

/// Trimmed text has no whitespace at either end.
pub proof fn lemma_trim_is_trimmed(s: Seq<char>)
    ensures
        trim(trim(s)) == trim(s),
        trim(s).len() == 0 || (!is_ws(trim(s)[0]) && !is_ws(trim(s).last())),
{
    let y = trim_end(s);
    lemma_trim_end_prefix(s);
    lemma_trim_start_suffix(y);
    let r = trim_start(y);
    if r.len() > 0 {
        assert(r.last() == y.last());
        assert(trim_end(r) == r);
        assert(trim_start(r) == r);
    } else {
        assert(trim_end(r) == r);
        assert(trim_start(r) == r);
    }
}

proof fn lemma_subrange_kept(s: Seq<char>, a: int, b: int)
    requires
        all_kept(s),
        0 <= a <= b <= s.len(),
    ensures
        all_kept(s.subrange(a, b)),
{
    assert forall|i: int| 0 <= i < s.subrange(a, b).len() implies keep_body_char(#[trigger] s.subrange(a, b)[i]) by {
        assert(s.subrange(a, b)[i] == s[a + i]);
    }
}

proof fn lemma_trim_kept(s: Seq<char>)
    requires
        all_kept(s),
    ensures
        all_kept(trim_end(s)),
        all_kept(trim(s)),
{
    lemma_trim_end_prefix(s);
    lemma_subrange_kept(s, 0, trim_end(s).len() as int);
    assert(s.take(trim_end(s).len() as int) =~= s.subrange(0, trim_end(s).len() as int));
    let y = trim_end(s);
    lemma_trim_start_suffix(y);
    lemma_subrange_kept(y, y.len() - trim_start(y).len(), y.len() as int);
    assert(y.skip(y.len() - trim_start(y).len()) =~= y.subrange(y.len() - trim_start(y).len(), y.len() as int));
}

proof fn lemma_split_nl_kept(s: Seq<char>)
    requires
        all_kept(s),
    ensures
        split_nl(s).len() > 0,
        forall|k: int| 0 <= k < split_nl(s).len() ==> all_kept(#[trigger] split_nl(s)[k]),
    decreases s.len(),
{
    if s.len() > 0 {
        let p = s.drop_last();
        assert(all_kept(p)) by {
            assert forall|i: int| 0 <= i < p.len() implies keep_body_char(#[trigger] p[i]) by {
                assert(p[i] == s[i]);
            }
        }
        lemma_split_nl_kept(p);
        let q = split_nl(p);
        assert(keep_body_char(s[s.len() - 1]));
        if s.last() != '\n' {
            let l = q.last().push(s.last());
            assert(all_kept(q[q.len() - 1]));
            assert forall|i: int| 0 <= i < l.len() implies keep_body_char(#[trigger] l[i]) by {
                if i < q.last().len() {
                    assert(l[i] == q[q.len() - 1][i]);
                }
            }
            assert forall|k: int| 0 <= k < split_nl(s).len() implies all_kept(#[trigger] split_nl(s)[k]) by {
                if k < q.len() - 1 {
                    assert(split_nl(s)[k] == q[k]);
                } else {
                    assert(split_nl(s)[k] == l);
                }
            }
        } else {
            assert forall|k: int| 0 <= k < split_nl(s).len() implies all_kept(#[trigger] split_nl(s)[k]) by {
                if k < q.len() {
                    assert(split_nl(s)[k] == q[k]);
                } else {
                    assert(split_nl(s)[k] =~= Seq::<char>::empty());
                }
            }
        }
    }
}

proof fn lemma_collapse_kept(lines: Seq<Seq<char>>, prev_blank: bool)
    requires
        forall|k: int| 0 <= k < lines.len() ==> all_kept(#[trigger] lines[k]),
    ensures
        forall|k: int|
            0 <= k < collapse(lines, prev_blank).len() ==> all_kept(#[trigger] collapse(lines, prev_blank)[k]),
    decreases lines.len(),
{
    if lines.len() > 0 {
        let rest = lines.drop_first();
        assert forall|k: int| 0 <= k < rest.len() implies all_kept(#[trigger] rest[k]) by {
            assert(rest[k] == lines[k + 1]);
        }
        assert(all_kept(lines[0]));
        lemma_trim_kept(lines[0]);
        let t = trim_end(lines[0]);
        let blank = trim(t).len() == 0;
        lemma_collapse_kept(rest, prev_blank);
        lemma_collapse_kept(rest, blank);
        let c = collapse(lines, prev_blank);
        if !(blank && prev_blank) {
            assert(c == seq![t] + collapse(rest, blank));
            assert forall|k: int| 0 <= k < c.len() implies all_kept(#[trigger] c[k]) by {
                if k > 0 {
                    assert(c[k] == collapse(rest, blank)[k - 1]);
                } else {
                    assert(c[k] == t);
                }
            }
        } else {
            assert(c == collapse(rest, prev_blank));
        }
    }
}

proof fn lemma_join_kept(lines: Seq<Seq<char>>)
    requires
        forall|k: int| 0 <= k < lines.len() ==> all_kept(#[trigger] lines[k]),
    ensures
        all_kept(join_nl(lines)),
    decreases lines.len(),
{
    if lines.len() > 1 {
        let p = lines.drop_last();
        assert forall|k: int| 0 <= k < p.len() implies all_kept(#[trigger] p[k]) by {
            assert(p[k] == lines[k]);
        }
        lemma_join_kept(p);
        let a = join_nl(p);
        let b = lines.last();
        assert(all_kept(lines[lines.len() - 1]));
        let j = a + seq!['\n'] + b;
        assert forall|i: int| 0 <= i < j.len() implies keep_body_char(#[trigger] j[i]) by {
            if i < a.len() {
                assert(j[i] == a[i]);
            } else if i == a.len() {
                assert(j[i] == '\n');
            } else {
                assert(j[i] == b[i - a.len() - 1]);
            }
        }
    } else if lines.len() == 1 {
        assert(all_kept(lines[0]));
    }
}

/// Sanitized text holds no control character but newline and tab, and
/// starts and ends with a non-whitespace character (or is empty); trimming
/// it again changes nothing.
pub proof fn law_sanitize_is_clean(s: Seq<char>)
    ensures
        all_kept(sanitize_spec(s)),
        trim(sanitize_spec(s)) == sanitize_spec(s),
        sanitize_spec(s).len() == 0 || (!is_ws(sanitize_spec(s)[0]) && !is_ws(sanitize_spec(s).last())),
{
    broadcast use vstd::seq_lib::group_filter_ensures;
    let f = s.filter(|c: char| keep_body_char(c));
    assert(all_kept(f)) by {
        assert forall|i: int| 0 <= i < f.len() implies keep_body_char(#[trigger] f[i]) by {
            s.lemma_filter_pred(|c: char| keep_body_char(c), i);
        }
    }
    let ls = lines_of(f);
    if f.len() > 0 {
        if f.last() == '\n' {
            assert(all_kept(f.drop_last())) by {
                assert forall|i: int| 0 <= i < f.drop_last().len() implies keep_body_char(#[trigger] f.drop_last()[i]) by {
                    assert(f.drop_last()[i] == f[i]);
                }
            }
            lemma_split_nl_kept(f.drop_last());
        } else {
            lemma_split_nl_kept(f);
        }
    }
    lemma_collapse_kept(ls, false);
    lemma_join_kept(collapse(ls, false));
    lemma_trim_kept(join_nl(collapse(ls, false)));
    lemma_trim_is_trimmed(join_nl(collapse(ls, false)));
}

proof fn lemma_src_nonempty(t: Seq<char>, from: int)
    ensures
        extract_src_from(t, from) matches Some(v) ==> v.len() > 0,
    decreases t.len() - from,
{
    let pos = find_src(t, from);
    if !(pos < 0 || pos < from) {
        let i = skip_blank(t, pos + 3);
        let boundary = pos == 0 || !is_ascii_alnum(t[pos - 1]);
        if !(boundary && i < t.len() && t[i] == '=') && pos + 3 <= t.len() {
            lemma_src_nonempty(t, pos + 3);
        }
    }
}

/// A reader segment as the reader needs it: text that is non-empty,
/// trimmed and free of control characters but newline and tab, or a
/// non-empty image URL.
pub open spec fn tidy_segment(g: SegmentView) -> bool {
    match g {
        SegmentView::Text(t) => t.len() > 0 && trim(t) == t && all_kept(t),
        SegmentView::Image(u) => u.len() > 0,
    }
}

proof fn lemma_flush_tidy(text: Seq<char>)
    ensures
        forall|k: int| 0 <= k < flush_spec(text).len() ==> tidy_segment(#[trigger] flush_spec(text)[k]),
{
    law_sanitize_is_clean(decode_from(text, 0));
}

proof fn lemma_blocks_tidy(h: Seq<char>, i: int, text: Seq<char>)
    ensures
        forall|k: int| 0 <= k < blocks_from(h, i, text).len() ==> tidy_segment(#[trigger] blocks_from(h, i, text)[k]),
    decreases h.len() - i,
{
    lemma_flush_tidy(text);
    if !(i < 0 || i >= h.len()) {
        if h[i] == '<' {
            let j = find_char(h, '>', i + 1);
            let tag = h.subrange(i + 1, j);
            let next = if j < h.len() { j + 1 } else { j };
            if !(next <= i || next > h.len()) {
                if tag_name_spec(tag) == "img"@ {
                    lemma_blocks_tidy(h, next, seq![]);
                    lemma_src_nonempty(tag, 0);
                    let a = flush_spec(text);
                    let m: Seq<SegmentView> = match extract_src_from(tag, 0) {
                        Some(u) => seq![SegmentView::Image(u)],
                        None => seq![],
                    };
                    let b = blocks_from(h, next, seq![]);
                    let all = a + m + b;
                    assert(blocks_from(h, i, text) == all);
                    assert forall|k: int| 0 <= k < all.len() implies tidy_segment(#[trigger] all[k]) by {
                        if k < a.len() {
                            assert(all[k] == a[k]);
                        } else if k < a.len() + m.len() {
                            assert(all[k] == m[k - a.len()]);
                        } else {
                            assert(all[k] == b[k - a.len() - m.len()]);
                        }
                    }
                } else if is_block_name(tag_name_spec(tag)) {
                    lemma_blocks_tidy(h, next, text.push('\n'));
                    assert(blocks_from(h, i, text) == blocks_from(h, next, text.push('\n')));
                } else {
                    lemma_blocks_tidy(h, next, text);
                    assert(blocks_from(h, i, text) == blocks_from(h, next, text));
                }
            } else {
                assert(blocks_from(h, i, text) == flush_spec(text));
            }
        } else {
            lemma_blocks_tidy(h, i + 1, text.push(h[i]));
            assert(blocks_from(h, i, text) == blocks_from(h, i + 1, text.push(h[i])));
        }
    } else {
        assert(blocks_from(h, i, text) == flush_spec(text));
    }
}

/// Every segment the reader gets from HTML is tidy: text segments are
/// non-empty, trimmed and hold no control character but newline and tab
/// (so escape sequences in feed HTML never reach the terminal), and image
/// URLs are non-empty.
pub proof fn law_content_blocks_are_tidy(h: Seq<char>)
    ensures
        forall|k: int|
            0 <= k < content_blocks_spec(h).len() ==> tidy_segment(#[trigger] content_blocks_spec(h)[k]),
{
    lemma_blocks_tidy(h, 0, seq![]);
}

/// Whether a line is blank (only whitespace).
pub open spec fn blank_line(l: Seq<char>) -> bool {
    trim(l).len() == 0
}

/// The body's lines before they are joined: each line's end is trimmed,
/// two blank lines never follow each other, and after a blank line (or at
/// the start of the body) no blank line comes first.
pub proof fn law_collapse_tidies_lines(lines: Seq<Seq<char>>, prev_blank: bool)
    ensures
        forall|k: int|
            0 <= k < collapse(lines, prev_blank).len() ==> trim_end(#[trigger] collapse(lines, prev_blank)[k])
                == collapse(lines, prev_blank)[k],
        forall|k: int|
            0 <= k < collapse(lines, prev_blank).len() - 1 ==> !(blank_line(
                #[trigger] collapse(lines, prev_blank)[k],
            ) && blank_line(collapse(lines, prev_blank)[k + 1])),
        prev_blank && collapse(lines, prev_blank).len() > 0 ==> !blank_line(collapse(lines, prev_blank)[0]),
    decreases lines.len(),
{
    if lines.len() > 0 {
        let rest = lines.drop_first();
        let t = trim_end(lines[0]);
        let blank = trim(t).len() == 0;
        lemma_trim_end_prefix(lines[0]);
        assert(trim_end(t) == t);
        law_collapse_tidies_lines(rest, prev_blank);
        law_collapse_tidies_lines(rest, blank);
        let c = collapse(lines, prev_blank);
        if blank && prev_blank {
            assert(c == collapse(rest, prev_blank));
        } else {
            let cr = collapse(rest, blank);
            assert(c == seq![t] + cr);
            assert forall|k: int| 0 <= k < c.len() implies trim_end(#[trigger] c[k]) == c[k] by {
                if k > 0 {
                    assert(c[k] == cr[k - 1]);
                } else {
                    assert(c[k] == t);
                }
            }
            assert forall|k: int| 0 <= k < c.len() - 1 implies !(blank_line(#[trigger] c[k]) && blank_line(
                c[k + 1],
            )) by {
                if k > 0 {
                    assert(c[k] == cr[k - 1]);
                    assert(c[k + 1] == cr[k]);
                } else {
                    assert(c[0] == t);
                    assert(c[1] == cr[0]);
                }
            }
            assert(c[0] == t);
        }
    }
}

/// `s` holds no newline.
pub open spec fn no_newline(s: Seq<char>) -> bool {
    forall|i: int| 0 <= i < s.len() ==> s[i] != '\n'
}

/// No line of `t` ends in whitespace: every newline follows either another
/// newline (the line before it is empty) or a non-whitespace character.
pub open spec fn lines_end_clean(t: Seq<char>) -> bool {
    forall|i: int| 0 < i < t.len() && #[trigger] t[i] == '\n' ==> (t[i - 1] == '\n' || !is_ws(t[i - 1]))
}

/// No two blank lines follow each other: never three newlines in a row
/// (with line ends clean and the text trimmed, a blank line is empty).
pub open spec fn no_double_blank(t: Seq<char>) -> bool {
    forall|i: int| 0 <= i && i + 2 < t.len() ==> !(#[trigger] t[i] == '\n' && t[i + 1] == '\n' && t[i + 2] == '\n')
}

proof fn lemma_trim_end_fixed_last(x: Seq<char>)
    requires
        trim_end(x) == x,
        x.len() > 0,
    ensures
        !is_ws(x.last()),
{
    if is_ws(x.last()) {
        lemma_trim_end_prefix(x.drop_last());
        assert(trim_end(x) == trim_end(x.drop_last()));
    }
}

proof fn lemma_join_clean(c: Seq<Seq<char>>)
    requires
        forall|k: int| 0 <= k < c.len() ==> no_newline(#[trigger] c[k]) && trim_end(c[k]) == c[k],
        forall|k: int| 0 <= k < c.len() - 1 ==> !((#[trigger] c[k]).len() == 0 && c[k + 1].len() == 0),
    ensures
        lines_end_clean(join_nl(c)),
        no_double_blank(join_nl(c)),
        c.len() > 0 && c.last().len() > 0 ==> join_nl(c).len() > 0 && join_nl(c).last() == c.last().last(),
        join_nl(c).len() > 0 && join_nl(c).last() == '\n' ==> c.len() >= 2 && c.last().len() == 0,
        c.len() > 0 ==> join_nl(c).len() >= c.last().len(),
    decreases c.len(),
{
    let j = join_nl(c);
    if c.len() == 1 {
        assert(j == c[0]);
        assert(no_newline(c[0]));
        assert(c.last() == c[0]);
    } else if c.len() >= 2 {
        let c1 = c.drop_last();
        let x = c.last();
        assert(no_newline(c[c.len() - 1]));
        assert forall|k: int| 0 <= k < c1.len() implies no_newline(#[trigger] c1[k]) && trim_end(c1[k]) == c1[k] by {
            assert(c1[k] == c[k]);
        }
        assert forall|k: int| 0 <= k < c1.len() - 1 implies !((#[trigger] c1[k]).len() == 0 && c1[k + 1].len() == 0) by {
            assert(c1[k] == c[k]);
            assert(c1[k + 1] == c[k + 1]);
        }
        lemma_join_clean(c1);
        let j1 = join_nl(c1);
        let p = j1.len() as int;
        assert(j == j1 + seq!['\n'] + x);
        assert(j[p] == '\n');
        assert forall|i: int| 0 <= i < p implies j[i] == j1[i] by {}
        assert forall|i: int| p < i < j.len() implies j[i] == x[i - p - 1] && j[i] != '\n' by {
            assert(j[i] == x[i - p - 1]);
        }
        // The character before the new separator.
        if p > 0 {
            let last1 = c1.last();
            assert(c1[c1.len() - 1] == last1);
            if last1.len() > 0 {
                lemma_trim_end_fixed_last(last1);
                assert(j1.last() == last1.last());
                assert(no_newline(last1));
                assert(last1[last1.len() - 1] != '\n');
            } else if c1.len() >= 2 {
                assert(j1 == join_nl(c1.drop_last()) + seq!['\n'] + last1);
                assert(j1.last() == '\n');
            } else {
                assert(j1 == c1[0]);
                assert(false);
            }
        }
        assert forall|i: int| 0 < i < j.len() && #[trigger] j[i] == '\n' implies (j[i - 1] == '\n' || !is_ws(j[i - 1])) by {
            if i < p {
                assert(j1[i] == '\n');
                assert(j[i - 1] == j1[i - 1]);
            } else if i == p {
                assert(j[i - 1] == j1[p - 1]);
            }
        }
        assert forall|i: int| 0 <= i && i + 2 < j.len() implies !(#[trigger] j[i] == '\n' && j[i + 1] == '\n' && j[i + 2] == '\n') by {
            if i + 2 < p {
                assert(j[i] == j1[i] && j[i + 1] == j1[i + 1] && j[i + 2] == j1[i + 2]);
            } else if i + 2 == p && j[i] == '\n' && j[i + 1] == '\n' {
                // `j1` ends in two newlines: the last two lines of `c1` are empty.
                assert(j1[p - 1] == '\n');
                assert(j1.last() == '\n');
                let c2 = c1.drop_last();
                assert(c1.len() >= 2 && c1.last().len() == 0);
                assert(j1 == join_nl(c2) + seq!['\n'] + c1.last());
                assert(j1 =~= join_nl(c2) + seq!['\n']);
                assert forall|k: int| 0 <= k < c2.len() implies no_newline(#[trigger] c2[k]) && trim_end(c2[k]) == c2[k] by {
                    assert(c2[k] == c[k]);
                }
                assert forall|k: int| 0 <= k < c2.len() - 1 implies !((#[trigger] c2[k]).len() == 0 && c2[k + 1].len() == 0) by {
                    assert(c2[k] == c[k]);
                    assert(c2[k + 1] == c[k + 1]);
                }
                lemma_join_clean(c2);
                let j2 = join_nl(c2);
                assert(j2.len() == p - 1);
                assert(j2.len() > 0);
                assert(j2.last() == j1[p - 2]);
                assert(c2.last().len() == 0);
                assert(c[c.len() - 3] == c2.last());
                assert(c[c.len() - 2] == c1.last());
            } else if i + 2 > p {
                if i >= p {
                    assert(j[i + 1] != '\n');
                } else {
                    assert(j[i + 2] != '\n');
                }
            }
        }
        if x.len() > 0 {
            assert(j.last() == x.last());
        }
    }
}

proof fn lemma_clean_take_skip(t: Seq<char>, a: int, b: int)
    requires
        lines_end_clean(t),
        no_double_blank(t),
        0 <= a <= b <= t.len(),
    ensures
        lines_end_clean(t.subrange(a, b)),
        no_double_blank(t.subrange(a, b)),
{
    let r = t.subrange(a, b);
    assert forall|i: int| 0 < i < r.len() && #[trigger] r[i] == '\n' implies (r[i - 1] == '\n' || !is_ws(r[i - 1])) by {
        assert(r[i] == t[a + i]);
        assert(r[i - 1] == t[a + i - 1]);
    }
    assert forall|i: int| 0 <= i && i + 2 < r.len() implies !(#[trigger] r[i] == '\n' && r[i + 1] == '\n' && r[i + 2] == '\n') by {
        assert(r[i] == t[a + i]);
        assert(r[i + 1] == t[a + i + 1]);
        assert(r[i + 2] == t[a + i + 2]);
    }
}

proof fn lemma_split_nl_no_newline(s: Seq<char>)
    ensures
        split_nl(s).len() > 0,
        forall|k: int| 0 <= k < split_nl(s).len() ==> no_newline(#[trigger] split_nl(s)[k]),
    decreases s.len(),
{
    if s.len() > 0 {
        let p = s.drop_last();
        lemma_split_nl_no_newline(p);
        let q = split_nl(p);
        if s.last() != '\n' {
            let l = q.last().push(s.last());
            assert(no_newline(q[q.len() - 1]));
            assert forall|i: int| 0 <= i < l.len() implies l[i] != '\n' by {
                if i < q.last().len() {
                    assert(l[i] == q[q.len() - 1][i]);
                }
            }
            assert forall|k: int| 0 <= k < split_nl(s).len() implies no_newline(#[trigger] split_nl(s)[k]) by {
                if k < q.len() - 1 {
                    assert(split_nl(s)[k] == q[k]);
                } else {
                    assert(split_nl(s)[k] == l);
                }
            }
        } else {
            assert forall|k: int| 0 <= k < split_nl(s).len() implies no_newline(#[trigger] split_nl(s)[k]) by {
                if k < q.len() {
                    assert(split_nl(s)[k] == q[k]);
                } else {
                    assert(split_nl(s)[k] =~= Seq::<char>::empty());
                }
            }
        }
    }
}

proof fn lemma_collapse_no_newline(lines: Seq<Seq<char>>, prev_blank: bool)
    requires
        forall|k: int| 0 <= k < lines.len() ==> no_newline(#[trigger] lines[k]),
    ensures
        forall|k: int| 0 <= k < collapse(lines, prev_blank).len() ==> no_newline(#[trigger] collapse(lines, prev_blank)[k]),
    decreases lines.len(),
{
    if lines.len() > 0 {
        let rest = lines.drop_first();
        assert forall|k: int| 0 <= k < rest.len() implies no_newline(#[trigger] rest[k]) by {
            assert(rest[k] == lines[k + 1]);
        }
        let t = trim_end(lines[0]);
        lemma_trim_end_prefix(lines[0]);
        assert(no_newline(lines[0]));
        assert forall|i: int| 0 <= i < t.len() implies t[i] != '\n' by {
            assert(t[i] == lines[0][i]);
        }
        let blank = trim(t).len() == 0;
        lemma_collapse_no_newline(rest, prev_blank);
        lemma_collapse_no_newline(rest, blank);
        let c = collapse(lines, prev_blank);
        if !(blank && prev_blank) {
            assert(c == seq![t] + collapse(rest, blank));
            assert forall|k: int| 0 <= k < c.len() implies no_newline(#[trigger] c[k]) by {
                if k > 0 {
                    assert(c[k] == collapse(rest, blank)[k - 1]);
                } else {
                    assert(c[k] == t);
                }
            }
        } else {
            assert(c == collapse(rest, prev_blank));
        }
    }
}

/// Sanitized text has clean line ends and no repeated blank lines: no line
/// ends in whitespace (every newline follows a newline or a non-whitespace
/// character, and the text itself ends in non-whitespace), and never do two
/// blank lines follow each other (there are never three newlines in a
/// row).
pub proof fn law_sanitize_lines_are_clean(s: Seq<char>)
    ensures
        lines_end_clean(sanitize_spec(s)),
        no_double_blank(sanitize_spec(s)),
{
    let f = s.filter(|c: char| keep_body_char(c));
    let ls = lines_of(f);
    if f.len() > 0 {
        if f.last() == '\n' {
            lemma_split_nl_no_newline(f.drop_last());
        } else {
            lemma_split_nl_no_newline(f);
        }
    }
    assert forall|k: int| 0 <= k < ls.len() implies no_newline(#[trigger] ls[k]) by {}
    let c = collapse(ls, false);
    lemma_collapse_no_newline(ls, false);
    law_collapse_tidies_lines(ls, false);
    assert forall|k: int| 0 <= k < c.len() - 1 implies !((#[trigger] c[k]).len() == 0 && c[k + 1].len() == 0) by {
        if c[k].len() == 0 && c[k + 1].len() == 0 {
            assert(trim(c[k]) =~= Seq::<char>::empty()) by {
                assert(trim_end(c[k]) == c[k]);
            }
            assert(trim(c[k + 1]) =~= Seq::<char>::empty()) by {
                assert(trim_end(c[k + 1]) == c[k + 1]);
            }
            assert(blank_line(c[k]) && blank_line(c[k + 1]));
        }
    }
    lemma_join_clean(c);
    let j = join_nl(c);
    lemma_trim_end_prefix(j);
    let y = trim_end(j);
    lemma_clean_take_skip(j, 0, y.len() as int);
    assert(y =~= j.subrange(0, y.len() as int));
    lemma_trim_start_suffix(y);
    lemma_clean_take_skip(y, y.len() - trim_start(y).len(), y.len() as int);
    assert(trim_start(y) =~= y.subrange(y.len() - trim_start(y).len(), y.len() as int));
}

proof fn lemma_last_not_ws_fixed(x: Seq<char>)
    requires
        x.len() > 0,
        !is_ws(x.last()),
    ensures
        trim_end(x) == x,
{
}

proof fn lemma_fixed_blank_is_empty(x: Seq<char>)
    requires
        trim_end(x) == x,
        trim(x).len() == 0,
    ensures
        x.len() == 0,
{
    if x.len() > 0 {
        lemma_trim_end_fixed_last(x);
        assert(trim(x) == trim_start(x));
        lemma_trim_start_empty(x);
    }
}

proof fn lemma_trim_start_empty(x: Seq<char>)
    requires
        x.len() > 0,
        trim_start(x).len() == 0,
    ensures
        is_ws(x.last()),
    decreases x.len(),
{
    if is_ws(x[0]) {
        let r = x.drop_first();
        if r.len() > 0 {
            lemma_trim_start_empty(r);
            assert(r.last() == x.last());
        } else {
            assert(x.len() == 1);
            assert(x.last() == x[0]);
        }
    }
}

/// Invariant of splitting a clean, trimmed text at its newlines, checked
/// on each prefix `u = t.take(n)`.
pub open spec fn split_ok(t: Seq<char>, n: int) -> bool {
    let u = t.take(n);
    let q = split_nl(u);
    &&& q.len() > 0
    &&& forall|k: int| 0 <= k < q.len() - 1 ==> trim_end(#[trigger] q[k]) == q[k]
    &&& forall|k: int| 0 <= k < q.len() - 2 ==> !((#[trigger] q[k]).len() == 0 && q[k + 1].len() == 0)
    &&& (q.last().len() == 0 <==> (u.len() == 0 || u.last() == '\n'))
    &&& (q.last().len() > 0 ==> q.last().last() == u.last())
    &&& (q.len() >= 2 && q[q.len() - 2].len() == 0 && q.last().len() == 0 ==> u.len() >= 2 && u[u.len()
        - 1] == '\n' && u[u.len() - 2] == '\n')
}

proof fn lemma_split_ok(t: Seq<char>, n: int)
    requires
        0 <= n <= t.len(),
        lines_end_clean(t),
        no_double_blank(t),
        t.len() > 0 ==> !is_ws(t[0]),
    ensures
        split_ok(t, n),
    decreases n,
{
    if n == 0 {
        assert(t.take(0) =~= Seq::<char>::empty());
    } else {
        lemma_split_ok(t, n - 1);
        let u0 = t.take(n - 1);
        let u = t.take(n);
        let ch = t[n - 1];
        assert(u.drop_last() =~= u0);
        assert(u.last() == ch);
        let q0 = split_nl(u0);
        let q = split_nl(u);
        if ch != '\n' {
            let l = q0.last().push(ch);
            assert(q == q0.update(q0.len() - 1, l));
            assert forall|k: int| 0 <= k < q.len() - 1 implies trim_end(#[trigger] q[k]) == q[k] by {
                assert(q[k] == q0[k]);
            }
            assert forall|k: int| 0 <= k < q.len() - 2 implies !((#[trigger] q[k]).len() == 0 && q[k + 1].len() == 0) by {
                assert(q[k] == q0[k]);
                assert(q[k + 1] == q0[k + 1]);
            }
            assert(q.last() == l);
        } else {
            assert(q == q0.push(Seq::<char>::empty()));
            assert(n - 1 > 0) by {
                if n - 1 == 0 {
                    assert(t[0] == '\n');
                }
            }
            assert(u0.len() == n - 1);
            // The finished piece `q0.last()` has a clean end.
            if q0.last().len() > 0 {
                assert(q0.last().last() == t[n - 2]);
                assert(t[n - 1] == '\n');
                assert(t[n - 2] != '\n');
                assert(!is_ws(t[n - 2]));
                lemma_last_not_ws_fixed(q0.last());
            }
            assert forall|k: int| 0 <= k < q.len() - 1 implies trim_end(#[trigger] q[k]) == q[k] by {
                assert(q[k] == q0[k]);
                if k == q0.len() - 1 {
                    assert(q0[k] == q0.last());
                }
            }
            assert forall|k: int| 0 <= k < q.len() - 2 implies !((#[trigger] q[k]).len() == 0 && q[k + 1].len() == 0) by {
                assert(q[k] == q0[k]);
                assert(q[k + 1] == q0[k + 1]);
                if k == q0.len() - 2 && q0[k].len() == 0 && q0[k + 1].len() == 0 {
                    assert(q0[k + 1] == q0.last());
                    assert(u0[u0.len() - 1] == '\n' && u0[u0.len() - 2] == '\n');
                    assert(t[n - 3] == '\n' && t[n - 2] == '\n' && t[n - 1] == '\n');
                    assert(t[n - 3] == '\n');
                }
            }
            if q0.last().len() == 0 {
                assert(u0.last() == '\n');
                assert(u[u.len() - 2] == u0.last());
            }
            assert(q[q.len() - 2] == q0.last());
        }
    }
}

proof fn lemma_collapse_identity(l: Seq<Seq<char>>, prev_blank: bool)
    requires
        forall|k: int| 0 <= k < l.len() ==> trim_end(#[trigger] l[k]) == l[k],
        forall|k: int| 0 <= k < l.len() - 1 ==> !((#[trigger] l[k]).len() == 0 && l[k + 1].len() == 0),
        prev_blank && l.len() > 0 ==> l[0].len() > 0,
    ensures
        collapse(l, prev_blank) == l,
    decreases l.len(),
{
    if l.len() > 0 {
        let rest = l.drop_first();
        let t = trim_end(l[0]);
        assert(t == l[0]);
        let blank = trim(t).len() == 0;
        if blank {
            lemma_fixed_blank_is_empty(l[0]);
        } else {
            assert(l[0].len() > 0) by {
                if l[0].len() == 0 {
                    assert(trim(l[0]) =~= Seq::<char>::empty());
                }
            }
        }
        assert forall|k: int| 0 <= k < rest.len() implies trim_end(#[trigger] rest[k]) == rest[k] by {
            assert(rest[k] == l[k + 1]);
        }
        assert forall|k: int| 0 <= k < rest.len() - 1 implies !((#[trigger] rest[k]).len() == 0 && rest[k + 1].len() == 0) by {
            assert(rest[k] == l[k + 1]);
            assert(rest[k + 1] == l[k + 2]);
        }
        if blank && rest.len() > 0 {
            assert(rest[0] == l[1]);
        }
        lemma_collapse_identity(rest, blank);
        assert(collapse(l, prev_blank) == seq![t] + collapse(rest, blank));
        assert(seq![l[0]] + rest =~= l);
    }
}

proof fn lemma_join_split(t: Seq<char>)
    ensures
        join_nl(split_nl(t)) == t,
    decreases t.len(),
{
    if t.len() > 0 {
        let p = t.drop_last();
        lemma_join_split(p);
        lemma_split_nl_no_newline(p);
        let q = split_nl(p);
        if t.last() == '\n' {
            let q2 = q.push(Seq::<char>::empty());
            assert(q2.drop_last() == q);
            assert(join_nl(q2) == join_nl(q) + seq!['\n'] + Seq::<char>::empty());
            assert(p + seq!['\n'] + Seq::<char>::empty() =~= t);
        } else {
            let l = q.last().push(t.last());
            let q2 = q.update(q.len() - 1, l);
            assert(split_nl(t) == q2);
            if q.len() == 1 {
                assert(join_nl(q) == q[0]);
                assert(join_nl(q2) == q2[0]);
                assert(q2[0] =~= p.push(t.last()));
            } else {
                assert(q2.drop_last() =~= q.drop_last());
                assert(join_nl(q2) == join_nl(q.drop_last()) + seq!['\n'] + l);
                assert(join_nl(q) == join_nl(q.drop_last()) + seq!['\n'] + q.last());
                assert(join_nl(q2) =~= join_nl(q).push(t.last()));
            }
            assert(p.push(t.last()) =~= t);
        }
    }
}

proof fn lemma_filter_all_kept(s: Seq<char>)
    requires
        all_kept(s),
    ensures
        s.filter(|c: char| keep_body_char(c)) == s,
    decreases s.len(),
{
    reveal(Seq::filter);
    if s.len() > 0 {
        let p = s.drop_last();
        assert(all_kept(p)) by {
            assert forall|i: int| 0 <= i < p.len() implies keep_body_char(#[trigger] p[i]) by {
                assert(p[i] == s[i]);
            }
        }
        lemma_filter_all_kept(p);
        assert(keep_body_char(s[s.len() - 1]));
        assert(p.push(s.last()) =~= s);
    } else {
        assert(s.filter(|c: char| keep_body_char(c)) =~= s);
    }
}

/// Sanitizing is idempotent: sanitized text comes back unchanged.
pub proof fn law_sanitize_is_idempotent(s: Seq<char>)
    ensures
        sanitize_spec(sanitize_spec(s)) == sanitize_spec(s),
{
    let r = sanitize_spec(s);
    law_sanitize_is_clean(s);
    law_sanitize_lines_are_clean(s);
    lemma_filter_all_kept(r);
    assert(r.filter(|c: char| keep_body_char(c)) == r);
    if r.len() == 0 {
        assert(lines_of(r) =~= Seq::<Seq<char>>::empty());
        assert(collapse(Seq::<Seq<char>>::empty(), false) =~= Seq::<Seq<char>>::empty());
        assert(join_nl(Seq::<Seq<char>>::empty()) =~= Seq::<char>::empty());
        assert(trim(Seq::<char>::empty()) =~= Seq::<char>::empty()) by {
            assert(trim_end(Seq::<char>::empty()) == Seq::<char>::empty());
        }
    } else {
        assert(r.last() != '\n');
        assert(lines_of(r) == split_nl(r));
        lemma_split_ok(r, r.len() as int);
        assert(r.take(r.len() as int) =~= r);
        let q = split_nl(r);
        assert(q.last().len() > 0);
        lemma_last_not_ws_fixed(q.last());
        assert forall|k: int| 0 <= k < q.len() implies trim_end(#[trigger] q[k]) == q[k] by {
            if k == q.len() - 1 {
                assert(q[k] == q.last());
            }
        }
        assert forall|k: int| 0 <= k < q.len() - 1 implies !((#[trigger] q[k]).len() == 0 && q[k + 1].len() == 0) by {
            if k == q.len() - 2 {
                assert(q[k + 1] == q.last());
            }
        }
        lemma_collapse_identity(q, false);
        lemma_join_split(r);
        assert(join_nl(collapse(lines_of(r), false)) == r);
        lemma_trim_is_trimmed(s.filter(|c: char| keep_body_char(c)));
    }
}

} // verus!

//! Character-level helpers: markup and JSON escaping, CSV fields, CSS
//! colour checks, decimal formatting and the order of texts.
use vstd::prelude::*;
use vstd::string::*;

verus! {

/// `str::chars` collected into a vector: the characters of `s` in order.
#[verifier::external_body]
pub(crate) fn chars_of(s: &str) -> (r: Vec<char>)
    ensures
        r@ == s@,
{
    s.chars().collect()
}

/// `String::push`: appends one character.
#[verifier::external_body]
pub(crate) fn push_char(s: &mut String, c: char)
    ensures
        final(s)@ == old(s)@.push(c),
{
    s.push(c)
}

/// Appends a string slice; the view grows by exactly its characters.
pub(crate) fn push_str(s: &mut String, t: &str)
    ensures
        final(s)@ == old(s)@ + t@,
{
    s.append(t);
}

/// A fresh string holding a copy of `t`.
pub(crate) fn string_of(t: &str) -> (r: String)
    ensures
        r@ == t@,
{
    String::from_str(t)
}

// ── Markup escaping ──────────────────────────────────────────────────────────

/// What one character becomes inside HTML or XML text and attribute values.
pub open spec fn markup_char(c: char) -> Seq<char> {
    if c == '&' {
        "&amp;"@
    } else if c == '<' {
        "&lt;"@
    } else if c == '>' {
        "&gt;"@
    } else if c == '"' {
        "&quot;"@
    } else {
        seq![c]
    }
}

/// `s` with `&`, `<`, `>` and `"` replaced by their entities.
pub open spec fn escape_markup_spec(s: Seq<char>) -> Seq<char>
    decreases s.len(),
{
    if s.len() == 0 {
        Seq::empty()
    } else {
        escape_markup_spec(s.drop_last()) + markup_char(s.last())
    }
}

proof fn lemma_escape_markup_step(s: Seq<char>, i: int)
    requires
        0 <= i < s.len(),
    ensures
        escape_markup_spec(s.take(i + 1)) == escape_markup_spec(s.take(i)) + markup_char(s[i]),
{
    assert(s.take(i + 1).drop_last() =~= s.take(i));
}

/// Escapes the four characters that are special in markup.
pub fn escape_markup(s: &str) -> (r: String)
    ensures
        r@ == escape_markup_spec(s@),
{
    let cs = chars_of(s);
    let mut out = String::new();
    let mut i: usize = 0;
    while i < cs.len()
        invariant
            cs@ == s@,
            i <= cs.len(),
            out@ == escape_markup_spec(s@.take(i as int)),
        decreases cs.len() - i,
    {
        let c = cs[i];
        proof {
            lemma_escape_markup_step(s@, i as int);
        }
        if c == '&' {
            push_str(&mut out, "&amp;");
        } else if c == '<' {
            push_str(&mut out, "&lt;");
        } else if c == '>' {
            push_str(&mut out, "&gt;");
        } else if c == '"' {
            push_str(&mut out, "&quot;");
        } else {
            push_char(&mut out, c);
        }
        i = i + 1;
    }
    assert(s@.take(cs.len() as int) =~= s@);
    out
}

/// The characters that an escaped text can no longer hold.
pub open spec fn is_markup_special(c: char) -> bool {
    c == '<' || c == '>' || c == '"'
}

/// Escaped markup holds no `<`, `>` or `"`: nothing in it can open or close
/// a tag or an attribute value.
pub proof fn escaped_markup_has_no_specials(s: Seq<char>)
    ensures
        forall|i: int|
            0 <= i < escape_markup_spec(s).len() ==> !is_markup_special(
                #[trigger] escape_markup_spec(s)[i],
            ),
    decreases s.len(),
{
    reveal_strlit("&amp;");
    reveal_strlit("&lt;");
    reveal_strlit("&gt;");
    reveal_strlit("&quot;");
    if s.len() > 0 {
        escaped_markup_has_no_specials(s.drop_last());
        let a = escape_markup_spec(s.drop_last());
        let b = markup_char(s.last());
        assert forall|i: int| 0 <= i < (a + b).len() implies !is_markup_special((a + b)[i]) by {
            if i >= a.len() {
                assert((a + b)[i] == b[i - a.len()]);
            } else {
                assert((a + b)[i] == a[i]);
            }
        }
    }
}

/// Text without special characters passes through escaping unchanged.
pub proof fn escape_markup_keeps_plain_text(s: Seq<char>)
    requires
        forall|i: int| 0 <= i < s.len() ==> !is_markup_special(#[trigger] s[i]) && s[i] != '&',
    ensures
        escape_markup_spec(s) == s,
    decreases s.len(),
{
    if s.len() > 0 {
        escape_markup_keeps_plain_text(s.drop_last());
        assert(s.drop_last() + seq![s.last()] =~= s);
    }
}


// ── JSON strings ─────────────────────────────────────────────────────────────

/// The lower-case hexadecimal digit for `n`.
pub open spec fn hex_digit_spec(n: int) -> char {
    if n < 10 {
        (48 + n) as char
    } else {
        (87 + n) as char
    }
}

/// What one character becomes inside a JSON string literal.
pub open spec fn json_char(c: char) -> Seq<char> {
    if c == '\\' {
        "\\\\"@
    } else if c == '"' {
        "\\\""@
    } else if c == '\n' {
        "\\n"@
    } else if c == '\r' {
        "\\r"@
    } else if c == '\t' {
        "\\t"@
    } else if (c as u32) < 0x20 {
        "\\u00"@ + seq![hex_digit_spec((c as u32) as int / 16), hex_digit_spec((c as u32) as int % 16)]
    } else {
        seq![c]
    }
}

/// `s` escaped for the inside of a JSON string literal.
pub open spec fn json_escape_spec(s: Seq<char>) -> Seq<char>
    decreases s.len(),
{
    if s.len() == 0 {
        Seq::empty()
    } else {
        json_escape_spec(s.drop_last()) + json_char(s.last())
    }
}

fn hex_digit(n: u32) -> (c: char)
    requires
        n < 16,
    ensures
        c == hex_digit_spec(n as int),
{
    if n < 10 {
        ((48 + n) as u8) as char
    } else {
        ((87 + n) as u8) as char
    }
}

proof fn lemma_json_escape_step(s: Seq<char>, i: int)
    requires
        0 <= i < s.len(),
    ensures
        json_escape_spec(s.take(i + 1)) == json_escape_spec(s.take(i)) + json_char(s[i]),
{
    assert(s.take(i + 1).drop_last() =~= s.take(i));
}

/// Escapes backslash, double quote and the control characters for JSON.
pub fn json_escape(s: &str) -> (r: String)
    ensures
        r@ == json_escape_spec(s@),
{
    let cs = chars_of(s);
    let mut out = String::new();
    let mut i: usize = 0;
    while i < cs.len()
        invariant
            cs@ == s@,
            i <= cs.len(),
            out@ == json_escape_spec(s@.take(i as int)),
        decreases cs.len() - i,
    {
        let c = cs[i];
        proof {
            lemma_json_escape_step(s@, i as int);
        }
        if c == '\\' {
            push_str(&mut out, "\\\\");
        } else if c == '"' {
            push_str(&mut out, "\\\"");
        } else if c == '\n' {
            push_str(&mut out, "\\n");
        } else if c == '\r' {
            push_str(&mut out, "\\r");
        } else if c == '\t' {
            push_str(&mut out, "\\t");
        } else if (c as u32) < 0x20 {
            let u = c as u32;
            let ghost before = out@;
            push_str(&mut out, "\\u00");
            push_char(&mut out, hex_digit(u / 16));
            push_char(&mut out, hex_digit(u % 16));
            assert(out@ =~= before + json_char(c));
        } else {
            push_char(&mut out, c);
        }
        i = i + 1;
    }
    assert(s@.take(cs.len() as int) =~= s@);
    out
}

/// Escaped JSON text holds no control character: every character is at
/// least U+0020, so it can stand inside a JSON string literal.
pub proof fn escaped_json_has_no_control_chars(s: Seq<char>)
    ensures
        forall|i: int|
            0 <= i < json_escape_spec(s).len() ==> (#[trigger] json_escape_spec(s)[i] as u32) >= 0x20,
    decreases s.len(),
{
    reveal_strlit("\\\\");
    reveal_strlit("\\\"");
    reveal_strlit("\\n");
    reveal_strlit("\\r");
    reveal_strlit("\\t");
    reveal_strlit("\\u00");
    if s.len() > 0 {
        escaped_json_has_no_control_chars(s.drop_last());
        let a = json_escape_spec(s.drop_last());
        let c = s.last();
        let b = json_char(c);
        if !(c == '\\' || c == '"' || c == '\n' || c == '\r' || c == '\t') && (c as u32) < 0x20 {
            let hi = (c as u32) as int / 16;
            let lo = (c as u32) as int % 16;
            assert(0 <= hi < 16 && 0 <= lo < 16);
            assert(hex_digit_spec(hi) as u32 >= 48);
            assert(hex_digit_spec(lo) as u32 >= 48);
        }
        assert forall|i: int| 0 <= i < b.len() implies (#[trigger] b[i] as u32) >= 0x20 by {}
        assert forall|i: int| 0 <= i < (a + b).len() implies ((#[trigger] (a + b)[i]) as u32)
            >= 0x20 by {
            if i >= a.len() {
                assert((a + b)[i] == b[i - a.len()]);
            } else {
                assert((a + b)[i] == a[i]);
            }
        }
    }
}

/// The value of a hexadecimal digit (either case), or `None`.
pub open spec fn hex_value(c: char) -> Option<int> {
    if '0' <= c <= '9' {
        Some(c as int - 48)
    } else if 'a' <= c <= 'f' {
        Some(c as int - 87)
    } else if 'A' <= c <= 'F' {
        Some(c as int - 55)
    } else {
        None
    }
}

/// The character of a `\uXXXX` escape whose four digits start at `i`.
pub open spec fn unicode_escape_char(t: Seq<char>, i: int) -> Option<char> {
    match (hex_value(t[i]), hex_value(t[i + 1]), hex_value(t[i + 2]), hex_value(t[i + 3])) {
        (Some(a), Some(b), Some(c), Some(d)) => {
            let v = a * 4096 + b * 256 + c * 16 + d;
            if v < 0xD800 || 0xE000 <= v {
                Some(v as char)
            } else {
                None
            }
        },
        _ => None,
    }
}

/// The text inside a JSON string literal, decoded as JSON reads it: each
/// escape (`\\`, `\"`, `\/`, `\b`, `\f`, `\n`, `\r`, `\t`, `\uXXXX`)
/// stands for its character, every other character for itself. (An escape
/// that JSON rejects is read here as plain text.)
pub open spec fn json_unescape(t: Seq<char>) -> Seq<char>
    decreases t.len(),
{
    if t.len() == 0 {
        Seq::empty()
    } else if t[0] == '\\' && t.len() >= 2 {
        let e = t[1];
        if e == '\\' || e == '"' || e == '/' {
            seq![e] + json_unescape(t.subrange(2, t.len() as int))
        } else if e == 'b' {
            seq!['\u{8}'] + json_unescape(t.subrange(2, t.len() as int))
        } else if e == 'f' {
            seq!['\u{c}'] + json_unescape(t.subrange(2, t.len() as int))
        } else if e == 'n' {
            seq!['\n'] + json_unescape(t.subrange(2, t.len() as int))
        } else if e == 'r' {
            seq!['\r'] + json_unescape(t.subrange(2, t.len() as int))
        } else if e == 't' {
            seq!['\t'] + json_unescape(t.subrange(2, t.len() as int))
        } else if e == 'u' && t.len() >= 6 && unicode_escape_char(t, 2) is Some {
            seq![unicode_escape_char(t, 2)->0] + json_unescape(t.subrange(6, t.len() as int))
        } else {
            seq![t[0]] + json_unescape(t.drop_first())
        }
    } else {
        seq![t[0]] + json_unescape(t.drop_first())
    }
}

proof fn lemma_json_escape_front(c: char, s: Seq<char>)
    ensures
        json_escape_spec(seq![c] + s) == json_char(c) + json_escape_spec(s),
    decreases s.len(),
{
    if s.len() == 0 {
        assert((seq![c] + s).drop_last() =~= Seq::<char>::empty());
        assert(json_escape_spec(Seq::<char>::empty()) == Seq::<char>::empty());
        assert(json_char(c) + Seq::<char>::empty() =~= json_char(c));
    } else {
        lemma_json_escape_front(c, s.drop_last());
        assert((seq![c] + s).drop_last() =~= seq![c] + s.drop_last());
        assert((seq![c] + s).last() == s.last());
        assert(json_char(c) + json_escape_spec(s.drop_last()) + json_char(s.last()) =~= json_char(c)
            + (json_escape_spec(s.drop_last()) + json_char(s.last())));
    }
}

proof fn lemma_unescape_char(c: char, r: Seq<char>)
    ensures
        json_unescape(json_char(c) + r) == seq![c] + json_unescape(r),
{
    reveal_strlit("\\\\");
    reveal_strlit("\\\"");
    reveal_strlit("\\n");
    reveal_strlit("\\r");
    reveal_strlit("\\t");
    reveal_strlit("\\u00");
    let t = json_char(c) + r;
    if c == '\\' || c == '"' || c == '\n' || c == '\r' || c == '\t' {
        assert(t.subrange(2, t.len() as int) =~= r);
    } else if (c as u32) < 0x20 {
        let u = (c as u32) as int;
        let hi = u / 16;
        let lo = u % 16;
        assert(t[0] == '\\' && t[1] == 'u' && t[2] == '0' && t[3] == '0');
        assert(t[4] == hex_digit_spec(hi) && t[5] == hex_digit_spec(lo));
        assert(hex_value(t[4]) == Some(hi));
        assert(hex_value(t[5]) == Some(lo));
        assert(unicode_escape_char(t, 2) == Some((hi * 16 + lo) as char));
        assert(hi * 16 + lo == u);
        assert((u as char) == c) by {
            vstd::utf8::char_u32_cast(c, c as u32);
        }
        assert(t.subrange(6, t.len() as int) =~= r);
    } else {
        assert(t[0] == c);
        assert(t.drop_first() =~= r);
    }
}

/// Escaping for JSON loses nothing: reading the escaped text back as the
/// inside of a JSON string literal gives the original text.
pub proof fn json_escape_round_trips(s: Seq<char>)
    ensures
        json_unescape(json_escape_spec(s)) == s,
    decreases s.len(),
{
    if s.len() > 0 {
        let rest = s.drop_first();
        assert(s =~= seq![s[0]] + rest);
        lemma_json_escape_front(s[0], rest);
        lemma_unescape_char(s[0], json_escape_spec(rest));
        json_escape_round_trips(rest);
    } else {
        assert(json_escape_spec(s) =~= Seq::<char>::empty());
        assert(s =~= Seq::<char>::empty());
    }
}

/// A JSON string literal holding `s`.
pub open spec fn json_value_spec(s: Seq<char>) -> Seq<char> {
    seq!['"'] + json_escape_spec(s) + seq!['"']
}

/// Every value is written as a JSON string, so its type is predictable
/// without a schema.
pub fn json_value(s: &str) -> (r: String)
    ensures
        r@ == json_value_spec(s@),
{
    let mut out = String::new();
    push_char(&mut out, '"');
    let e = json_escape(s);
    push_str(&mut out, e.as_str());
    push_char(&mut out, '"');
    assert(out@ =~= json_value_spec(s@));
    out
}

// ── CSV fields ───────────────────────────────────────────────────────────────

/// A field must be quoted when it holds a comma, a double quote or a line break.
pub open spec fn csv_needs_quotes(f: Seq<char>) -> bool {
    f.contains(',') || f.contains('"') || f.contains('\n') || f.contains('\r')
}

/// `f` with every double quote doubled.
pub open spec fn double_quotes(f: Seq<char>) -> Seq<char>
    decreases f.len(),
{
    if f.len() == 0 {
        Seq::empty()
    } else {
        double_quotes(f.drop_last()) + (if f.last() == '"' {
            seq!['"', '"']
        } else {
            seq![f.last()]
        })
    }
}

/// One CSV field as written.
pub open spec fn csv_field(f: Seq<char>) -> Seq<char> {
    if csv_needs_quotes(f) {
        seq!['"'] + double_quotes(f) + seq!['"']
    } else {
        f
    }
}

/// The parts joined with `sep` between consecutive parts.
pub open spec fn join_spec(parts: Seq<Seq<char>>, sep: Seq<char>) -> Seq<char>
    decreases parts.len(),
{
    if parts.len() == 0 {
        Seq::empty()
    } else if parts.len() == 1 {
        parts[0]
    } else {
        join_spec(parts.drop_last(), sep) + sep + parts.last()
    }
}

/// The views of a sequence of strings.
pub open spec fn string_views(v: Seq<String>) -> Seq<Seq<char>> {
    v.map_values(|s: String| s@)
}

/// One CSV line: the fields, each written by `csv_field`, joined by commas.
pub open spec fn csv_row_spec(fields: Seq<Seq<char>>) -> Seq<char> {
    join_spec(fields.map_values(|f: Seq<char>| csv_field(f)), seq![','])
}

/// The inside of a quoted CSV field, read up to the lone `"` that closes
/// it (a doubled `""` stands for one quote): the field's text and what
/// follows the closing quote.
pub open spec fn quoted_part(t: Seq<char>) -> (Seq<char>, Seq<char>)
    decreases t.len(),
{
    if t.len() == 0 {
        (Seq::empty(), Seq::empty())
    } else if t[0] == '"' {
        if t.len() >= 2 && t[1] == '"' {
            let (a, r) = quoted_part(t.subrange(2, t.len() as int));
            (seq!['"'] + a, r)
        } else {
            (Seq::empty(), t.drop_first())
        }
    } else {
        let (a, r) = quoted_part(t.drop_first());
        (seq![t[0]] + a, r)
    }
}

/// An unquoted CSV field, read up to the next comma: the field's text and
/// the rest, starting at that comma.
pub open spec fn plain_part(t: Seq<char>) -> (Seq<char>, Seq<char>)
    decreases t.len(),
{
    if t.len() == 0 {
        (Seq::empty(), Seq::empty())
    } else if t[0] == ',' {
        (Seq::empty(), t)
    } else {
        let (a, r) = plain_part(t.drop_first());
        (seq![t[0]] + a, r)
    }
}

/// Reading a quoted field never lengthens what is left.
pub proof fn lemma_quoted_part_shorter(t: Seq<char>)
    ensures
        quoted_part(t).1.len() <= t.len(),
    decreases t.len(),
{
    if t.len() > 0 {
        if t[0] == '"' {
            if t.len() >= 2 && t[1] == '"' {
                lemma_quoted_part_shorter(t.subrange(2, t.len() as int));
            }
        } else {
            lemma_quoted_part_shorter(t.drop_first());
        }
    }
}

/// Reading an unquoted field never lengthens what is left.
pub proof fn lemma_plain_part_shorter(t: Seq<char>)
    ensures
        plain_part(t).1.len() <= t.len(),
    decreases t.len(),
{
    if t.len() > 0 && t[0] != ',' {
        lemma_plain_part_shorter(t.drop_first());
    }
}

/// One CSV field from the start of `t` and what follows it.
pub open spec fn field_part(t: Seq<char>) -> (Seq<char>, Seq<char>) {
    if t.len() > 0 && t[0] == '"' {
        quoted_part(t.drop_first())
    } else {
        plain_part(t)
    }
}

/// The fields of one CSV line, as RFC 4180 reads them: comma-separated,
/// a field in double quotes may hold commas, quotes (doubled) and line
/// breaks.
pub open spec fn csv_parse(t: Seq<char>) -> Seq<Seq<char>>
    decreases t.len(),
{
    let (f, rest) = field_part(t);
    if rest.len() > 0 && rest[0] == ',' {
        proof {
            if t.len() > 0 && t[0] == '"' {
                lemma_quoted_part_shorter(t.drop_first());
            } else {
                lemma_plain_part_shorter(t);
            }
        }
        seq![f] + csv_parse(rest.drop_first())
    } else {
        seq![f]
    }
}

proof fn lemma_double_quotes_front(c: char, s: Seq<char>)
    ensures
        double_quotes(seq![c] + s) == (if c == '"' {
            seq!['"', '"']
        } else {
            seq![c]
        }) + double_quotes(s),
    decreases s.len(),
{
    let d = if c == '"' { seq!['"', '"'] } else { seq![c] };
    let t = seq![c] + s;
    if s.len() == 0 {
        assert(t.drop_last() =~= Seq::<char>::empty());
        assert(t.last() == c);
        assert(double_quotes(t) == double_quotes(t.drop_last()) + d);
        assert(double_quotes(Seq::<char>::empty()) == Seq::<char>::empty());
        assert(double_quotes(s) =~= Seq::<char>::empty());
        assert(double_quotes(t) =~= d + double_quotes(s));
    } else {
        lemma_double_quotes_front(c, s.drop_last());
        let e = if s.last() == '"' { seq!['"', '"'] } else { seq![s.last()] };
        assert(t.drop_last() =~= seq![c] + s.drop_last());
        assert(t.last() == s.last());
        assert(double_quotes(t) == double_quotes(t.drop_last()) + e);
        assert(double_quotes(s) == double_quotes(s.drop_last()) + e);
        assert(d + double_quotes(s.drop_last()) + e =~= d + (double_quotes(s.drop_last()) + e));
    }
}

proof fn lemma_quoted_part_reads(f: Seq<char>, r: Seq<char>)
    requires
        r.len() == 0 || r[0] != '"',
    ensures
        quoted_part(double_quotes(f) + seq!['"'] + r) == (f, r),
    decreases f.len(),
{
    if f.len() == 0 {
        assert(double_quotes(f) =~= Seq::<char>::empty());
        let t = double_quotes(f) + seq!['"'] + r;
        assert(t =~= seq!['"'] + r);
        assert(t.drop_first() =~= r);
    } else {
        let c = f[0];
        let rest = f.drop_first();
        assert(f =~= seq![c] + rest);
        lemma_double_quotes_front(c, rest);
        lemma_quoted_part_reads(rest, r);
        let t = double_quotes(f) + seq!['"'] + r;
        let tail = double_quotes(rest) + seq!['"'] + r;
        if c == '"' {
            assert(t =~= seq!['"', '"'] + tail);
            assert(t.subrange(2, t.len() as int) =~= tail);
        } else {
            assert(t =~= seq![c] + tail);
            assert(t.drop_first() =~= tail);
        }
        assert(seq![c] + rest =~= f);
    }
}

proof fn lemma_plain_part_reads(f: Seq<char>, r: Seq<char>)
    requires
        !f.contains(','),
        r.len() == 0 || r[0] == ',',
    ensures
        plain_part(f + r) == (f, r),
    decreases f.len(),
{
    if f.len() == 0 {
        assert(f + r =~= r);
    } else {
        let rest = f.drop_first();
        assert(!rest.contains(',')) by {
            if rest.contains(',') {
                let j = choose|j: int| 0 <= j < rest.len() && rest[j] == ',';
                assert(f[j + 1] == ',');
            }
        }
        assert(f[0] != ',');
        lemma_plain_part_reads(rest, r);
        assert((f + r).drop_first() =~= rest + r);
        assert(seq![f[0]] + rest =~= f);
    }
}

/// A written field is read back from the front of a line, up to the comma
/// or the end that follows it.
proof fn lemma_field_part_reads(f: Seq<char>, r: Seq<char>)
    requires
        r.len() == 0 || r[0] == ',',
    ensures
        field_part(csv_field(f) + r) == (f, r),
{
    if csv_needs_quotes(f) {
        let t = csv_field(f) + r;
        assert(t =~= seq!['"'] + (double_quotes(f) + seq!['"'] + r));
        assert(t.drop_first() =~= double_quotes(f) + seq!['"'] + r);
        lemma_quoted_part_reads(f, r);
    } else {
        if f.len() > 0 {
            assert(f[0] != '"') by {
                assert(f.contains(f[0]));
            }
        }
        lemma_plain_part_reads(f, r);
    }
}

proof fn lemma_join_front(parts: Seq<Seq<char>>, sep: Seq<char>)
    requires
        parts.len() >= 2,
    ensures
        join_spec(parts, sep) == parts[0] + sep + join_spec(parts.drop_first(), sep),
    decreases parts.len(),
{
    let dl = parts.drop_last();
    let df = parts.drop_first();
    assert(join_spec(parts, sep) == join_spec(dl, sep) + sep + parts.last());
    if parts.len() == 2 {
        assert(dl =~= seq![parts[0]]);
        assert(df =~= seq![parts[1]]);
        assert(join_spec(dl, sep) == dl[0]);
        assert(join_spec(df, sep) == df[0]);
    } else {
        lemma_join_front(dl, sep);
        assert(dl.drop_first() =~= df.drop_last());
        assert(df.last() == parts.last());
        assert(dl[0] == parts[0]);
        assert(join_spec(df, sep) == join_spec(df.drop_last(), sep) + sep + df.last());
        assert(parts[0] + sep + join_spec(df.drop_last(), sep) + sep + parts.last() =~= parts[0]
            + sep + (join_spec(df.drop_last(), sep) + sep + parts.last()));
    }
}

/// A CSV line reads back as the fields it was written from: quoting loses
/// nothing, whatever the fields hold. (A line with no fields is the empty
/// line, which reads as one empty field.)
pub proof fn csv_row_round_trips(fields: Seq<Seq<char>>)
    requires
        fields.len() > 0,
    ensures
        csv_parse(csv_row_spec(fields)) == fields,
    decreases fields.len(),
{
    let parts = fields.map_values(|f: Seq<char>| csv_field(f));
    let f = fields[0];
    if fields.len() == 1 {
        assert(csv_row_spec(fields) == parts[0]);
        lemma_field_part_reads(f, Seq::empty());
        assert(csv_field(f) + Seq::<char>::empty() =~= csv_field(f));
        assert(csv_parse(csv_field(f)) =~= seq![f]);
        assert(fields =~= seq![f]);
    } else {
        let rest = fields.drop_first();
        lemma_join_front(parts, seq![',']);
        assert(parts.drop_first() =~= rest.map_values(|g: Seq<char>| csv_field(g)));
        let tail = csv_row_spec(rest);
        let t = csv_row_spec(fields);
        assert(t == csv_field(f) + (seq![','] + tail)) by {
            assert(csv_field(f) + seq![','] + tail =~= csv_field(f) + (seq![','] + tail));
        }
        lemma_field_part_reads(f, seq![','] + tail);
        lemma_plain_part_shorter(t);
        lemma_quoted_part_shorter(t.drop_first());
        assert((seq![','] + tail).drop_first() =~= tail);
        csv_row_round_trips(rest);
        assert(csv_parse(t) == seq![f] + csv_parse(tail));
        assert(fields =~= seq![f] + rest);
    }
}

fn contains_char(cs: &Vec<char>, c: char) -> (r: bool)
    ensures
        r == cs@.contains(c),
{
    let mut i: usize = 0;
    while i < cs.len()
        invariant
            i <= cs.len(),
            forall|j: int| 0 <= j < i ==> cs@[j] != c,
        decreases cs.len() - i,
    {
        if cs[i] == c {
            return true;
        }
        i = i + 1;
    }
    false
}

fn csv_field_of(f: &str) -> (r: String)
    ensures
        r@ == csv_field(f@),
{
    let cs = chars_of(f);
    let quote = contains_char(&cs, ',') || contains_char(&cs, '"') || contains_char(&cs, '\n')
        || contains_char(&cs, '\r');
    if !quote {
        return string_of(f);
    }
    let mut out = String::new();
    push_char(&mut out, '"');
    let mut i: usize = 0;
    while i < cs.len()
        invariant
            cs@ == f@,
            i <= cs.len(),
            out@ == seq!['"'] + double_quotes(f@.take(i as int)),
        decreases cs.len() - i,
    {
        assert(f@.take(i + 1).drop_last() =~= f@.take(i as int));
        let ghost before = out@;
        if cs[i] == '"' {
            push_char(&mut out, '"');
            push_char(&mut out, '"');
        } else {
            push_char(&mut out, cs[i]);
        }
        assert(out@ =~= seq!['"'] + double_quotes(f@.take(i + 1)));
        i = i + 1;
    }
    push_char(&mut out, '"');
    assert(f@.take(cs.len() as int) =~= f@);
    out
}

/// One line of CSV output for the given fields.
pub fn csv_row(fields: &[String]) -> (r: String)
    ensures
        r@ == csv_row_spec(string_views(fields@)),
{
    let ghost parts = string_views(fields@).map_values(|f: Seq<char>| csv_field(f));
    let mut out = String::new();
    let mut i: usize = 0;
    while i < fields.len()
        invariant
            i <= fields.len(),
            parts == string_views(fields@).map_values(|f: Seq<char>| csv_field(f)),
            out@ == join_spec(parts.take(i as int), seq![',']),
        decreases fields.len() - i,
    {
        let field = csv_field_of(fields[i].as_str());
        assert(parts.take(i + 1).drop_last() =~= parts.take(i as int));
        if i > 0 {
            push_char(&mut out, ',');
        } else {
            assert(parts.take(i as int) =~= Seq::<Seq<char>>::empty());
        }
        push_str(&mut out, field.as_str());
        assert(out@ =~= join_spec(parts.take(i + 1), seq![',']));
        i = i + 1;
    }
    assert(parts.take(fields.len() as int) =~= parts);
    out
}


/// Joins the strings with `sep` between consecutive ones.
pub fn join_strings(parts: &[String], sep: &str) -> (r: String)
    ensures
        r@ == join_spec(string_views(parts@), sep@),
{
    let ghost views = string_views(parts@);
    let mut out = String::new();
    let mut i: usize = 0;
    while i < parts.len()
        invariant
            i <= parts.len(),
            views == string_views(parts@),
            out@ == join_spec(views.take(i as int), sep@),
        decreases parts.len() - i,
    {
        assert(views.take(i + 1).drop_last() =~= views.take(i as int));
        if i > 0 {
            push_str(&mut out, sep);
        } else {
            assert(views.take(i as int) =~= Seq::<Seq<char>>::empty());
        }
        push_str(&mut out, parts[i].as_str());
        assert(out@ =~= join_spec(views.take(i + 1), sep@));
        i = i + 1;
    }
    assert(views.take(parts.len() as int) =~= views);
    out
}

// ── Whitespace and CSS colours ───────────────────────────────────────────────

/// The characters with the Unicode `White_Space` property.
pub open spec fn is_white_space(c: char) -> bool {
    let u = c as u32;
    (9 <= u <= 13) || u == 32 || u == 0x85 || u == 0xA0 || u == 0x1680 || (0x2000 <= u
        <= 0x200A) || u == 0x2028 || u == 0x2029 || u == 0x202F || u == 0x205F || u == 0x3000
}

/// `s` without its leading white space.
pub open spec fn trim_start_spec(s: Seq<char>) -> Seq<char>
    decreases s.len(),
{
    if s.len() > 0 && is_white_space(s[0]) {
        trim_start_spec(s.drop_first())
    } else {
        s
    }
}

/// `s` without its trailing white space.
pub open spec fn trim_end_spec(s: Seq<char>) -> Seq<char>
    decreases s.len(),
{
    if s.len() > 0 && is_white_space(s.last()) {
        trim_end_spec(s.drop_last())
    } else {
        s
    }
}

/// `s` without leading and trailing white space.
pub open spec fn trim_spec(s: Seq<char>) -> Seq<char> {
    trim_end_spec(trim_start_spec(s))
}

/// `str::trim`: the slice without leading and trailing characters that have
/// the Unicode `White_Space` property.
#[verifier::external_body]
pub(crate) fn trim(s: &str) -> (r: &str)
    ensures
        r@ == trim_spec(s@),
{
    s.trim()
}

/// An ASCII hexadecimal digit, either case.
pub open spec fn is_ascii_hex(c: char) -> bool {
    ('0' <= c <= '9') || ('a' <= c <= 'f') || ('A' <= c <= 'F')
}

/// A `#` followed by three to eight hexadecimal digits.
pub open spec fn is_css_hex_color(t: Seq<char>) -> bool {
    &&& 4 <= t.len() <= 9
    &&& t[0] == '#'
    &&& forall|i: int| 1 <= i < t.len() ==> is_ascii_hex(#[trigger] t[i])
}

/// Accepts only a hexadecimal CSS colour (after trimming white space) and
/// hands back the trimmed text; anything else, which could break out of an
/// attribute, is refused.
pub fn sanitize_css_color(s: &str) -> (r: Option<&str>)
    ensures
        r is Some <==> is_css_hex_color(trim_spec(s@)),
        r matches Some(t) ==> t@ == trim_spec(s@),
{
    let t = trim(s);
    let cs = chars_of(t);
    if cs.len() < 4 || cs.len() > 9 || cs[0] != '#' {
        return None;
    }
    let mut i: usize = 1;
    while i < cs.len()
        invariant
            cs@ == t@,
            t@ == trim_spec(s@),
            1 <= i <= cs.len(),
            forall|j: int| 1 <= j < i ==> is_ascii_hex(#[trigger] cs@[j]),
        decreases cs.len() - i,
    {
        let c = cs[i];
        if !(('0' <= c && c <= '9') || ('a' <= c && c <= 'f') || ('A' <= c && c <= 'F')) {
            assert(!is_ascii_hex(cs@[i as int]));
            assert(!is_css_hex_color(t@));
            return None;
        }
        i = i + 1;
    }
    Some(t)
}

/// A sanitised colour holds no character that could end an attribute value
/// or open a tag.
pub proof fn sanitized_color_is_inert(t: Seq<char>)
    requires
        is_css_hex_color(t),
    ensures
        forall|i: int| 0 <= i < t.len() ==> !is_markup_special(#[trigger] t[i]) && t[i] != '&'
            && t[i] != ';',
{
    assert forall|i: int| 0 <= i < t.len() implies !is_markup_special(#[trigger] t[i]) && t[i]
        != '&' && t[i] != ';' by {
        if i > 0 {
            assert(is_ascii_hex(t[i]));
        }
    }
}

/// Sanitising a sanitised colour hands it back unchanged: it has no white
/// space at either end, so `sanitize_css_color` accepts it as it stands.
pub proof fn sanitized_color_is_stable(t: Seq<char>)
    requires
        is_css_hex_color(t),
    ensures
        trim_spec(t) == t,
        is_css_hex_color(trim_spec(t)),
{
    assert(!is_white_space(t[0]));
    assert(is_ascii_hex(t[t.len() - 1]));
    assert(!is_white_space(t.last()));
    assert(trim_start_spec(t) == t);
    assert(trim_end_spec(t) == t);
}

// ── Decimal numbers ──────────────────────────────────────────────────────────

/// The decimal digit for `d` (0..=9).
pub open spec fn digit_char(d: int) -> char {
    (48 + d) as char
}

/// The decimal representation of `n`, without leading zeros.
pub open spec fn decimal_spec(n: nat) -> Seq<char>
    decreases n,
{
    if n < 10 {
        seq![digit_char(n as int)]
    } else {
        decimal_spec(n / 10).push(digit_char((n % 10) as int))
    }
}

/// The decimal representation of a signed number.
pub open spec fn signed_decimal_spec(n: int) -> Seq<char> {
    if n < 0 {
        seq!['-'] + decimal_spec((-n) as nat)
    } else {
        decimal_spec(n as nat)
    }
}

/// Appends the decimal digits of `n`.
pub fn push_decimal(out: &mut String, n: u128)
    ensures
        final(out)@ == old(out)@ + decimal_spec(n as nat),
    decreases n,
{
    if n >= 10 {
        push_decimal(out, n / 10);
    }
    let d = (n % 10) as u8;
    push_char(out, (48 + d) as char);
    assert(final(out)@ =~= old(out)@ + decimal_spec(n as nat));
}

/// The decimal text of an unsigned number.
pub fn unsigned_to_string(n: u128) -> (r: String)
    ensures
        r@ == decimal_spec(n as nat),
{
    let mut out = String::new();
    push_decimal(&mut out, n);
    assert(out@ =~= decimal_spec(n as nat));
    out
}

/// The decimal text of a signed number, with a leading `-` when negative.
pub fn signed_to_string(n: i128) -> (r: String)
    ensures
        r@ == signed_decimal_spec(n as int),
{
    let mut out = String::new();
    if n < 0 {
        push_char(&mut out, '-');
        let m: u128 = ((-(n + 1)) as u128) + 1;
        push_decimal(&mut out, m);
    } else {
        push_decimal(&mut out, n as u128);
    }
    assert(out@ =~= signed_decimal_spec(n as int));
    out
}


/// Whether two string slices hold the same characters.
pub fn str_eq(a: &str, b: &str) -> (r: bool)
    ensures
        r == (a@ == b@),
{
    let x = chars_of(a);
    let y = chars_of(b);
    if x.len() != y.len() {
        return false;
    }
    let mut i: usize = 0;
    while i < x.len()
        invariant
            x@ == a@,
            y@ == b@,
            x@.len() == y@.len(),
            i <= x@.len(),
            forall|j: int| 0 <= j < i ==> x@[j] == y@[j],
        decreases x.len() - i,
    {
        if x[i] != y[i] {
            return false;
        }
        i = i + 1;
    }
    assert(x@ =~= y@);
    true
}

// ── Ordering ─────────────────────────────────────────────────────────────────

/// `a` sorts before `b`: compared character by character by code point, a
/// proper prefix first. This is the byte order of their UTF-8 encodings.
pub open spec fn text_lt(a: Seq<char>, b: Seq<char>) -> bool
    decreases a.len(),
{
    if b.len() == 0 {
        false
    } else if a.len() == 0 {
        true
    } else if a[0] != b[0] {
        a[0] < b[0]
    } else {
        text_lt(a.drop_first(), b.drop_first())
    }
}

/// Every text sorts strictly before the ones after it.
pub open spec fn strictly_sorted(s: Seq<Seq<char>>) -> bool {
    forall|i: int, j: int| 0 <= i < j < s.len() ==> text_lt(#[trigger] s[i], #[trigger] s[j])
}

/// No text sorts before itself.
pub proof fn lemma_text_lt_irreflexive(a: Seq<char>)
    ensures
        !text_lt(a, a),
    decreases a.len(),
{
    if a.len() > 0 {
        lemma_text_lt_irreflexive(a.drop_first());
    }
}

/// The order is transitive.
pub proof fn lemma_text_lt_transitive(a: Seq<char>, b: Seq<char>, c: Seq<char>)
    requires
        text_lt(a, b),
        text_lt(b, c),
    ensures
        text_lt(a, c),
    decreases a.len(),
{
    if a.len() > 0 && b.len() > 0 && c.len() > 0 && a[0] == b[0] && b[0] == c[0] {
        lemma_text_lt_transitive(a.drop_first(), b.drop_first(), c.drop_first());
    }
}

/// Two different texts are ordered one way or the other.
pub proof fn lemma_text_lt_total(a: Seq<char>, b: Seq<char>)
    requires
        a != b,
    ensures
        text_lt(a, b) || text_lt(b, a),
    decreases a.len(),
{
    if a.len() == 0 {
        assert(b.len() > 0) by {
            if b.len() == 0 {
                assert(a =~= b);
            }
        }
    } else if b.len() > 0 && a[0] == b[0] {
        if a.drop_first() == b.drop_first() {
            assert(a =~= seq![a[0]] + a.drop_first());
            assert(b =~= seq![b[0]] + b.drop_first());
        }
        lemma_text_lt_total(a.drop_first(), b.drop_first());
    }
}

/// Whether `a` sorts before `b`.
pub fn text_less(a: &str, b: &str) -> (r: bool)
    ensures
        r == text_lt(a@, b@),
{
    let x = chars_of(a);
    let y = chars_of(b);
    let mut i: usize = 0;
    assert(a@.skip(0) =~= a@);
    assert(b@.skip(0) =~= b@);
    while i < x.len() && i < y.len() && x[i] == y[i]
        invariant
            x@ == a@,
            y@ == b@,
            i <= x@.len(),
            i <= y@.len(),
            text_lt(a@, b@) == text_lt(a@.skip(i as int), b@.skip(i as int)),
        decreases x.len() - i,
    {
        assert(a@.skip(i as int).drop_first() =~= a@.skip(i + 1));
        assert(b@.skip(i as int).drop_first() =~= b@.skip(i + 1));
        i = i + 1;
    }
    if i == y.len() {
        false
    } else if i == x.len() {
        true
    } else {
        x[i] < y[i]
    }
}

/// Adds `t` to a strictly sorted list of texts, unless it is already there.
pub fn insert_sorted(v: &mut Vec<String>, t: String)
    requires
        strictly_sorted(string_views(old(v)@)),
    ensures
        strictly_sorted(string_views(final(v)@)),
        forall|x: Seq<char>|
            #[trigger] string_views(final(v)@).contains(x) <==> (string_views(old(v)@).contains(x)
                || x == t@),
{
    let ghost s = string_views(v@);
    let mut p: usize = 0;
    while p < v.len() && text_less(v[p].as_str(), t.as_str())
        invariant
            s == string_views(v@),
            p <= v@.len(),
            forall|j: int| 0 <= j < p ==> text_lt(#[trigger] s[j], t@),
        decreases v.len() - p,
    {
        p = p + 1;
    }
    if p < v.len() && str_eq(v[p].as_str(), t.as_str()) {
        assert(s[p as int] == t@);
        return;
    }
    proof {
        if p < s.len() {
            assert(!text_lt(s[p as int], t@));
            assert(s[p as int] != t@);
            lemma_text_lt_total(s[p as int], t@);
            assert forall|j: int| p <= j < s.len() implies text_lt(t@, #[trigger] s[j]) by {
                if j > p {
                    lemma_text_lt_transitive(t@, s[p as int], s[j]);
                }
            }
        }
    }
    let ghost tv = t@;
    v.insert(p, t);
    proof {
        let n = string_views(v@);
        assert(n =~= s.insert(p as int, tv));
        assert forall|i: int, j: int| 0 <= i < j < n.len() implies text_lt(
            #[trigger] n[i],
            #[trigger] n[j],
        ) by {
            if j < p {
            } else if j == p {
            } else if i < p {
                lemma_text_lt_transitive(n[i], tv, n[j]);
            } else if i == p {
            } else {
                assert(n[i] == s[i - 1] && n[j] == s[j - 1]);
            }
        }
        assert forall|x: Seq<char>| #[trigger] n.contains(x) <==> (s.contains(x) || x == tv) by {
            if n.contains(x) {
                let k = choose|k: int| 0 <= k < n.len() && n[k] == x;
                if k < p {
                    assert(s[k] == x);
                } else if k > p {
                    assert(s[k - 1] == x);
                }
            }
            if s.contains(x) {
                let k = choose|k: int| 0 <= k < s.len() && s[k] == x;
                if k < p {
                    assert(n[k] == x);
                } else {
                    assert(n[k + 1] == x);
                }
            }
            if x == tv {
                assert(n[p as int] == x);
            }
        }
    }
}

/// A strictly sorted list is fixed by its members: two such lists with the
/// same members are the same list. So a report that lists ids sorted and
/// without repeats has exactly one possible content.
pub proof fn sorted_texts_are_determined(a: Seq<Seq<char>>, b: Seq<Seq<char>>)
    requires
        strictly_sorted(a),
        strictly_sorted(b),
        forall|x: Seq<char>| #[trigger] a.contains(x) <==> b.contains(x),
    ensures
        a == b,
    decreases a.len(),
{
    if a.len() == 0 {
        if b.len() > 0 {
            assert(b.contains(b[0]));
            assert(a.contains(b[0]));
        }
        assert(a =~= b);
    } else {
        assert(a.contains(a[0]));
        let k = choose|k: int| 0 <= k < b.len() && b[k] == a[0];
        assert(b.contains(b[0]));
        assert(a.contains(b[0]));
        let j = choose|j: int| 0 <= j < a.len() && a[j] == b[0];
        if k > 0 {
            assert(text_lt(b[0], b[k]));
            if j > 0 {
                assert(text_lt(a[0], a[j]));
                lemma_text_lt_transitive(a[0], b[0], a[0]);
                lemma_text_lt_irreflexive(a[0]);
            } else {
                lemma_text_lt_irreflexive(b[0]);
            }
        }
        assert(b[0] == a[0]);
        let a1 = a.drop_first();
        let b1 = b.drop_first();
        assert forall|x: Seq<char>| #[trigger] a1.contains(x) <==> b1.contains(x) by {
            if a1.contains(x) {
                let i = choose|i: int| 0 <= i < a1.len() && a1[i] == x;
                assert(a[i + 1] == x);
                assert(text_lt(a[0], x));
                assert(a.contains(x));
                assert(b.contains(x));
                let m = choose|m: int| 0 <= m < b.len() && b[m] == x;
                if m == 0 {
                    lemma_text_lt_irreflexive(x);
                }
                assert(b1[m - 1] == x);
            }
            if b1.contains(x) {
                let i = choose|i: int| 0 <= i < b1.len() && b1[i] == x;
                assert(b[i + 1] == x);
                assert(text_lt(b[0], x));
                assert(b.contains(x));
                assert(a.contains(x));
                let m = choose|m: int| 0 <= m < a.len() && a[m] == x;
                if m == 0 {
                    lemma_text_lt_irreflexive(x);
                }
                assert(a1[m - 1] == x);
            }
        }
        assert forall|i: int, j: int| 0 <= i < j < a1.len() implies text_lt(
            #[trigger] a1[i],
            #[trigger] a1[j],
        ) by {
            assert(a1[i] == a[i + 1] && a1[j] == a[j + 1]);
        }
        assert forall|i: int, j: int| 0 <= i < j < b1.len() implies text_lt(
            #[trigger] b1[i],
            #[trigger] b1[j],
        ) by {
            assert(b1[i] == b[i + 1] && b1[j] == b[j + 1]);
        }
        sorted_texts_are_determined(a1, b1);
        assert(a =~= seq![a[0]] + a1);
        assert(b =~= seq![b[0]] + b1);
    }
}

} // verus!

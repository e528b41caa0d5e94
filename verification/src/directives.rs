//! Directives that transform the text of a variable: trimming, case, HTML
//! escaping, tag stripping, JSON encoding and date formatting.
use crate::error::LuminessError;
use crate::text::{chars_of, push_char, signed_decimal, signed_decimal_string, to_owned_string, trim, trim_chars, string_of};
use vstd::prelude::*;
use vstd::utf8::is_ascii_chars;
use crate::json::{all_digits, digits_value, lemma_digits_value_mono};

verus! {

/// `serde_json::Error`, which JSON encoding may return.
#[verifier::external_type_specification]
#[verifier::external_body]
pub struct ExJsonError(serde_json::Error);

/// What `str::to_uppercase` makes of a text.
pub uninterp spec fn unicode_uppercase(s: Seq<char>) -> Seq<char>;

/// What `str::to_lowercase` makes of a text.
pub uninterp spec fn unicode_lowercase(s: Seq<char>) -> Seq<char>;

/// ASCII letters made capitals, other characters unchanged.
pub open spec fn ascii_uppercase(s: Seq<char>) -> Seq<char> {
    s.map_values(|c: char| if 'a' <= c <= 'z' { ((c as u32) - 32) as char } else { c })
}

/// ASCII capitals made small letters, other characters unchanged.
pub open spec fn ascii_lowercase(s: Seq<char>) -> Seq<char> {
    s.map_values(|c: char| if 'A' <= c <= 'Z' { ((c as u32) + 32) as char } else { c })
}

/// `str::to_uppercase`. Its result is named by `unicode_uppercase`; on ASCII
/// text it is the ASCII capitalization, as Unicode case mapping gives it there.
#[verifier::external_body]
fn str_to_uppercase(s: &str) -> (r: String)
    ensures
        r@ == unicode_uppercase(s@),
        is_ascii_chars(s@) ==> r@ == ascii_uppercase(s@),
{
    s.to_uppercase()
}

/// `str::to_lowercase`. Its result is named by `unicode_lowercase`; on ASCII
/// text it is the ASCII lowering, as Unicode case mapping gives it there.
#[verifier::external_body]
fn str_to_lowercase(s: &str) -> (r: String)
    ensures
        r@ == unicode_lowercase(s@),
        is_ascii_chars(s@) ==> r@ == ascii_lowercase(s@),
{
    s.to_lowercase()
}

/// The lowercase hexadecimal digit of `d < 16`.
pub open spec fn hex_digit(d: u32) -> char {
    if d < 10 {
        ((d + 48) as u8) as char
    } else {
        ((d + 87) as u8) as char
    }
}

/// How JSON writes a character inside a string: quote, backslash and control
/// characters escaped, every other character as it is.
pub open spec fn json_escape_char(c: char) -> Seq<char> {
    if c == '"' {
        seq!['\\', '"']
    } else if c == '\\' {
        seq!['\\', '\\']
    } else if c as u32 == 8 {
        seq!['\\', 'b']
    } else if c == '\t' {
        seq!['\\', 't']
    } else if c == '\n' {
        seq!['\\', 'n']
    } else if c as u32 == 12 {
        seq!['\\', 'f']
    } else if c == '\r' {
        seq!['\\', 'r']
    } else if (c as u32) < 0x20 {
        seq!['\\', 'u', '0', '0', hex_digit((c as u32) / 16), hex_digit((c as u32) % 16)]
    } else {
        seq![c]
    }
}

/// Each character of `s` as JSON writes it inside a string.
pub open spec fn json_escape(s: Seq<char>) -> Seq<char>
    decreases s.len(),
{
    if s.len() == 0 {
        Seq::empty()
    } else {
        json_escape(s.drop_last()) + json_escape_char(s.last())
    }
}

/// `s` as a JSON string literal.
pub open spec fn json_quoted(s: Seq<char>) -> Seq<char> {
    seq!['"'] + json_escape(s) + seq!['"']
}

/// `serde_json::to_string` on a string slice: the JSON string literal, in
/// which quote, backslash and the control characters below U+0020 are escaped
/// (the short forms `\b \t \n \f \r`, else `\u00xx`) and every other character
/// stands as it is. serde_json writes into a `Vec`, so this never fails.
#[verifier::external_body]
pub(crate) fn json_string(s: &str) -> (r: Result<String, serde_json::Error>)
    ensures
        r is Ok,
        r->Ok_0@ == json_quoted(s@),
{
    serde_json::to_string(s)
}

/// How a character is written in escaped HTML.
pub open spec fn html_escape_char(c: char) -> Seq<char> {
    if c == '&' {
        "&amp;"@
    } else if c == '<' {
        "&lt;"@
    } else if c == '>' {
        "&gt;"@
    } else if c == '"' {
        "&quot;"@
    } else if c == '\'' {
        "&#x27;"@
    } else {
        seq![c]
    }
}

/// `s` with `& < > " '` written as HTML entities.
pub open spec fn html_escaped(s: Seq<char>) -> Seq<char>
    decreases s.len(),
{
    if s.len() == 0 {
        Seq::empty()
    } else {
        html_escaped(s.drop_last()) + html_escape_char(s.last())
    }
}

/// Whether the end of `s` lies inside a tag: after a `<` with no `>` since.
pub open spec fn in_tag_after(s: Seq<char>) -> bool
    decreases s.len(),
{
    if s.len() == 0 {
        false
    } else if s.last() == '<' {
        true
    } else if s.last() == '>' {
        false
    } else {
        in_tag_after(s.drop_last())
    }
}

/// `s` without its tags: `<`, `>` and every character between a `<` and the
/// next `>` are left out.
pub open spec fn tags_stripped(s: Seq<char>) -> Seq<char>
    decreases s.len(),
{
    if s.len() == 0 {
        Seq::empty()
    } else {
        let prev = tags_stripped(s.drop_last());
        let c = s.last();
        if c == '<' || c == '>' || in_tag_after(s.drop_last()) {
            prev
        } else {
            prev.push(c)
        }
    }
}

/// Escaped HTML holds no `<`, `>`, `"` or `'`, whatever the input.
pub proof fn lemma_escaped_html_has_no_markup(s: Seq<char>)
    ensures
        forall|k: int|
            0 <= k < html_escaped(s).len() ==> html_escaped(s)[k] != '<' && html_escaped(s)[k]
                != '>' && html_escaped(s)[k] != '"' && html_escaped(s)[k] != '\'',
    decreases s.len(),
{
    reveal_strlit("&amp;");
    reveal_strlit("&lt;");
    reveal_strlit("&gt;");
    reveal_strlit("&quot;");
    reveal_strlit("&#x27;");
    if s.len() > 0 {
        lemma_escaped_html_has_no_markup(s.drop_last());
        let prev = html_escaped(s.drop_last());
        let last = html_escape_char(s.last());
        assert forall|k: int| 0 <= k < html_escaped(s).len() implies html_escaped(s)[k] != '<'
            && html_escaped(s)[k] != '>' && html_escaped(s)[k] != '"' && html_escaped(s)[k]
            != '\'' by {
            if k >= prev.len() {
                assert(html_escaped(s)[k] == last[k - prev.len()]);
            } else {
                assert(html_escaped(s)[k] == prev[k]);
            }
        }
    }
}

/// Text without tags keeps no `<` or `>`, whatever the input.
pub proof fn lemma_stripped_has_no_brackets(s: Seq<char>)
    ensures
        forall|k: int|
            0 <= k < tags_stripped(s).len() ==> tags_stripped(s)[k] != '<' && tags_stripped(s)[k]
                != '>',
    decreases s.len(),
{
    if s.len() > 0 {
        lemma_stripped_has_no_brackets(s.drop_last());
        let prev = tags_stripped(s.drop_last());
        assert forall|k: int| 0 <= k < tags_stripped(s).len() implies tags_stripped(s)[k] != '<'
            && tags_stripped(s)[k] != '>' by {
            if k < prev.len() {
                assert(tags_stripped(s)[k] == prev[k]);
            }
        }
    }
}

/// What `str::parse::<i64>` gives: an optional `+` or `-` and at least one
/// ASCII digit, whose value fits in an `i64`.
pub open spec fn parse_i64(s: Seq<char>) -> Option<int> {
    let neg = s.len() > 0 && s[0] == '-';
    let digits = if s.len() > 0 && (s[0] == '+' || s[0] == '-') {
        s.drop_first()
    } else {
        s
    };
    if digits.len() > 0 && all_digits(digits) {
        if neg && digits_value(digits) <= 0x8000_0000_0000_0000 {
            Some(-(digits_value(digits) as int))
        } else if !neg && digits_value(digits) <= 0x7fff_ffff_ffff_ffff {
            Some(digits_value(digits) as int)
        } else {
            None
        }
    } else {
        None
    }
}

/// The placeholder text of a date: `formatted_date_`, the timestamp, `_` and
/// the format.
pub open spec fn date_text(timestamp: int, format: Seq<char>) -> Seq<char> {
    "formatted_date_"@ + signed_decimal(timestamp) + "_"@ + format
}

/// The format that `FORMAT_DATE` asks for.
pub open spec fn date_directive_format() -> Seq<char> {
    "%Y-%m-%d"@
}

/// What a directive makes of a text, or the message of its failure: an unknown
/// directive, or `FORMAT_DATE` on a text that is not a decimal Unix timestamp.
pub open spec fn directive_output(input: Seq<char>, directive: Seq<char>) -> Result<
    Seq<char>,
    Seq<char>,
> {
    if directive == "TRIM"@ {
        Ok(trim(input))
    } else if directive == "UCASE"@ {
        Ok(unicode_uppercase(input))
    } else if directive == "LCASE"@ {
        Ok(unicode_lowercase(input))
    } else if directive == "ESCAPE_HTML"@ {
        Ok(html_escaped(input))
    } else if directive == "STRIP_TAGS"@ {
        Ok(tags_stripped(input))
    } else if directive == "JSON_ENCODE"@ {
        Ok(json_quoted(input))
    } else if directive == "FORMAT_DATE"@ {
        match parse_i64(input) {
            Some(t) => Ok(date_text(t, date_directive_format())),
            None => Err("Invalid timestamp"@),
        }
    } else {
        Err("Unknown directive"@)
    }
}

/// Whether `e` is the error of directive `d` failing with `message`.
pub open spec fn is_directive_error(e: LuminessError, d: Seq<char>, message: Seq<char>) -> bool {
    e matches LuminessError::Directive {
        directive: dd,
        message: m,
        input_value: None,
        location: None,
    } && dd@ == d && m@ == message
}

/// Whether two string slices hold the same characters.
pub fn str_eq(a: &str, b: &str) -> (r: bool)
    ensures
        r == (a@ == b@),
{
    let av = chars_of(a);
    let bv = chars_of(b);
    if av.len() != bv.len() {
        return false;
    }
    let mut i: usize = 0;
    while i < av.len()
        invariant
            i <= av@.len(),
            av@.len() == bv@.len(),
            av@ == a@,
            bv@ == b@,
            forall|k: int| 0 <= k < i ==> av@[k] == bv@[k],
        decreases av.len() - i,
    {
        if av[i] != bv[i] {
            return false;
        }
        i = i + 1;
    }
    assert(av@ =~= bv@);
    true
}

/// Applies one directive to a text.
pub fn apply_directive(input: &str, directive: &str) -> (r: Result<String, LuminessError>)
    ensures
        match directive_output(input@, directive@) {
            Ok(out) => r matches Ok(s) && s@ == out,
            Err(m) => r matches Err(e) && is_directive_error(e, directive@, m),
        },
        directive@ == "UCASE"@ && is_ascii_chars(input@) ==> (r matches Ok(s) && s@
            == ascii_uppercase(input@)),
        directive@ == "LCASE"@ && is_ascii_chars(input@) ==> (r matches Ok(s) && s@
            == ascii_lowercase(input@)),
{
    proof {
        reveal_strlit("TRIM");
        reveal_strlit("UCASE");
        reveal_strlit("LCASE");
        assert("TRIM"@.len() != "UCASE"@.len());
        assert("LCASE"@[0] != "UCASE"@[0]);
    }
    if str_eq(directive, "TRIM") {
        let v = chars_of(input);
        let t = trim_chars(&v);
        Ok(string_of(&t))
    } else if str_eq(directive, "UCASE") {
        Ok(str_to_uppercase(input))
    } else if str_eq(directive, "LCASE") {
        Ok(str_to_lowercase(input))
    } else if str_eq(directive, "ESCAPE_HTML") {
        Ok(html_escape(input))
    } else if str_eq(directive, "STRIP_TAGS") {
        Ok(strip_html_tags(input))
    } else if str_eq(directive, "JSON_ENCODE") {
        match json_string(input) {
            Ok(json) => Ok(json),
            Err(_) => Err(LuminessError::directive("JSON_ENCODE", "Failed to encode as JSON")),
        }
    } else if str_eq(directive, "FORMAT_DATE") {
        match parse_timestamp(input) {
            Some(t) => format_date(t, "%Y-%m-%d"),
            None => Err(LuminessError::directive("FORMAT_DATE", "Invalid timestamp")),
        }
    } else {
        Err(LuminessError::directive(directive, "Unknown directive"))
    }
}

/// Writes `& < > " '` as HTML entities.
pub fn html_escape(input: &str) -> (r: String)
    ensures
        r@ == html_escaped(input@),
        forall|k: int|
            0 <= k < r@.len() ==> r@[k] != '<' && r@[k] != '>' && r@[k] != '"' && r@[k] != '\'',
{
    let v = chars_of(input);
    let mut r = String::new();
    let mut i: usize = 0;
    while i < v.len()
        invariant
            i <= v@.len(),
            v@ == input@,
            r@ == html_escaped(v@.subrange(0, i as int)),
            forall|k: int|
                0 <= k < r@.len() ==> r@[k] != '<' && r@[k] != '>' && r@[k] != '"' && r@[k]
                    != '\'',
        decreases v.len() - i,
    {
        assert(v@.subrange(0, i + 1).drop_last() =~= v@.subrange(0, i as int));
        proof {
            reveal_strlit("&amp;");
            reveal_strlit("&lt;");
            reveal_strlit("&gt;");
            reveal_strlit("&quot;");
            reveal_strlit("&#x27;");
        }
        let c = v[i];
        if c == '&' {
            r.append("&amp;");
        } else if c == '<' {
            r.append("&lt;");
        } else if c == '>' {
            r.append("&gt;");
        } else if c == '"' {
            r.append("&quot;");
        } else if c == '\'' {
            r.append("&#x27;");
        } else {
            push_char(&mut r, c);
        }
        i = i + 1;
    }
    assert(v@.subrange(0, v@.len() as int) =~= v@);
    r
}

/// Leaves out tags: `<`, `>` and what stands between them.
pub fn strip_html_tags(input: &str) -> (r: String)
    ensures
        r@ == tags_stripped(input@),
        forall|k: int| 0 <= k < r@.len() ==> r@[k] != '<' && r@[k] != '>',
{
    let v = chars_of(input);
    let mut result = String::new();
    let mut in_tag = false;
    let mut i: usize = 0;
    while i < v.len()
        invariant
            i <= v@.len(),
            v@ == input@,
            result@ == tags_stripped(v@.subrange(0, i as int)),
            in_tag == in_tag_after(v@.subrange(0, i as int)),
            forall|k: int| 0 <= k < result@.len() ==> result@[k] != '<' && result@[k] != '>',
        decreases v.len() - i,
    {
        assert(v@.subrange(0, i + 1).drop_last() =~= v@.subrange(0, i as int));
        let ch = v[i];
        if ch == '<' {
            in_tag = true;
        } else if ch == '>' {
            in_tag = false;
        } else if !in_tag {
            push_char(&mut result, ch);
        }
        i = i + 1;
    }
    assert(v@.subrange(0, v@.len() as int) =~= v@);
    result
}

/// A timestamp as `str::parse::<i64>` reads it.
pub fn parse_timestamp(s: &str) -> (r: Option<i64>)
    ensures
        match parse_i64(s@) {
            Some(n) => r == Some(n as i64),
            None => r is None,
        },
{
    let v = chars_of(s);
    let signed = v.len() > 0 && (v[0] == '+' || v[0] == '-');
    let neg = v.len() > 0 && v[0] == '-';
    let start: usize = if signed {
        1
    } else {
        0
    };
    let ghost digits = if v@.len() > 0 && (v@[0] == '+' || v@[0] == '-') {
        v@.drop_first()
    } else {
        v@
    };
    assert(digits =~= v@.subrange(start as int, v@.len() as int));
    if start >= v.len() {
        return None;
    }
    let limit: u64 = if neg {
        0x8000_0000_0000_0000
    } else {
        0x7fff_ffff_ffff_ffff
    };
    let mut value: u64 = 0;
    let mut i: usize = start;
    while i < v.len()
        invariant
            start <= i <= v@.len(),
            start < v@.len(),
            v@ == s@,
            digits == v@.subrange(start as int, v@.len() as int),
            digits == (if s@.len() > 0 && (s@[0] == '+' || s@[0] == '-') {
                s@.drop_first()
            } else {
                s@
            }),
            neg == (s@.len() > 0 && s@[0] == '-'),
            limit == (if neg { 0x8000_0000_0000_0000u64 } else { 0x7fff_ffff_ffff_ffffu64 }),
            forall|k: int| start <= k < i ==> '0' <= #[trigger] v@[k] <= '9',
            value == digits_value(digits.subrange(0, i - start)),
            value <= limit,
        decreases v.len() - i,
    {
        let c = v[i];
        if !('0' <= c && c <= '9') {
            assert(digits[i - start] == c);
            assert(!all_digits(digits));
            return None;
        }
        let d = (c as u32 - 48) as u64;
        assert(digits.subrange(0, i + 1 - start).drop_last() =~= digits.subrange(0, i - start));
        assert(digits.subrange(0, i + 1 - start).last() == c);
        assert(digits_value(digits.subrange(0, i + 1 - start)) == 10 * value + d);
        if value > (limit - d) / 10 {
            proof {
                assert(10 * value + d > limit) by (nonlinear_arith)
                    requires
                        value > (limit - d) / 10,
                        d <= 9,
                        d <= limit,
                ;
                lemma_digits_value_mono(digits, i + 1 - start, digits.len() as int);
                assert(digits.subrange(0, digits.len() as int) =~= digits);
            }
            return None;
        }
        proof {
            assert(10 * value + d <= limit) by (nonlinear_arith)
                requires
                    value <= (limit - d) / 10,
                    d <= limit,
            ;
        }
        value = value * 10 + d;
        i = i + 1;
    }
    assert(digits.subrange(0, digits.len() as int) =~= digits);
    assert(all_digits(digits));
    if neg {
        if value == 0x8000_0000_0000_0000 {
            Some(i64::MIN)
        } else {
            Some(-(value as i64))
        }
    } else {
        Some(value as i64)
    }
}

/// A placeholder date: `formatted_date_`, the timestamp and `_` with the format.
pub fn format_date(timestamp: i64, format: &str) -> (r: Result<String, LuminessError>)
    ensures
        r matches Ok(s) && s@ == date_text(timestamp as int, format@),
{
    let mut s = to_owned_string("formatted_date_");
    s.append(signed_decimal_string(timestamp).as_str());
    s.append("_");
    s.append(format);
    Ok(s)
}

} // verus!

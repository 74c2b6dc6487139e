use vstd::prelude::*;

use crate::table::{first_position, lemma_first_position_is};

verus! {

/// What one character becomes in HTML text.
pub open spec fn escape_char(c: char) -> Seq<char> {
    if c == '&' {
        "&amp;"@
    } else if c == '<' {
        "&lt;"@
    } else if c == '>' {
        "&gt;"@
    } else if c == '"' {
        "&quot;"@
    } else if c == '\'' {
        "&#39;"@
    } else {
        seq![c]
    }
}

/// The text with the five HTML-special characters replaced by entities.
pub open spec fn escaped(s: Seq<char>) -> Seq<char>
    decreases s.len(),
{
    if s.len() == 0 {
        Seq::empty()
    } else {
        escaped(s.drop_last()) + escape_char(s.last())
    }
}

/// Escapes `&`, `<`, `>`, `"` and `'` for HTML.
pub fn html_escape(s: &str) -> (r: String)
    ensures
        r@ == escaped(s@),
{
    let n = s.unicode_len();
    let mut out = String::new();
    let mut i: usize = 0;
    while i < n
        invariant
            i <= n,
            n == s@.len(),
            out@ == escaped(s@.subrange(0, i as int)),
        decreases n - i,
    {
        let c = s.get_char(i);
        if c == '&' {
            out.append("&amp;");
        } else if c == '<' {
            out.append("&lt;");
        } else if c == '>' {
            out.append("&gt;");
        } else if c == '"' {
            out.append("&quot;");
        } else if c == '\'' {
            out.append("&#39;");
        } else {
            out.append(s.substring_char(i, i + 1));
        }
        assert(s@.subrange(0, i + 1).drop_last() =~= s@.subrange(0, i as int));
        assert(s@.subrange(i as int, i + 1) =~= seq![c]);
        i = i + 1;
    }
    assert(s@.subrange(0, n as int) =~= s@);
    out
}

/// The value of a hexadecimal digit.
pub open spec fn hex_digit(c: char) -> Option<u8> {
    if '0' <= c && c <= '9' {
        Some((c as u32 - '0' as u32) as u8)
    } else if 'a' <= c && c <= 'f' {
        Some((c as u32 - 'a' as u32 + 10) as u8)
    } else if 'A' <= c && c <= 'F' {
        Some((c as u32 - 'A' as u32 + 10) as u8)
    } else {
        None
    }
}

/// The byte that one or two hexadecimal digits give (a leading `+` sign
/// before a single digit is accepted), or `None`.
pub open spec fn hex_byte(h: Seq<char>) -> Option<u8> {
    if h.len() == 1 {
        hex_digit(h[0])
    } else if h.len() == 2 && h[0] == '+' {
        hex_digit(h[1])
    } else if h.len() == 2 {
        match (hex_digit(h[0]), hex_digit(h[1])) {
            (Some(a), Some(b)) => Some((a * 16 + b) as u8),
            _ => None,
        }
    } else {
        None
    }
}

/// Form decoding: `+` is a space, `%` takes the next two characters (fewer
/// at the end) as a hexadecimal byte, dropped when they are not one.
pub open spec fn url_decoded(s: Seq<char>) -> Seq<char>
    decreases s.len(),
{
    if s.len() == 0 {
        Seq::empty()
    } else if s[0] == '+' {
        seq![' '] + url_decoded(s.subrange(1, s.len() as int))
    } else if s[0] == '%' {
        let k = if s.len() >= 3 { 3 } else { s.len() as int };
        let piece = match hex_byte(s.subrange(1, k)) {
            Some(b) => seq![b as char],
            None => Seq::empty(),
        };
        piece + url_decoded(s.subrange(k, s.len() as int))
    } else {
        seq![s[0]] + url_decoded(s.subrange(1, s.len() as int))
    }
}

/// Relies on std's `char::to_string`: the one-character string of `c`.
#[verifier::external_body]
fn char_string(c: char) -> (r: String)
    ensures
        r@ == seq![c],
{
    c.to_string()
}

/// The value of a hexadecimal digit.
fn hex_digit_of(c: char) -> (r: Option<u8>)
    ensures
        r == hex_digit(c),
{
    if '0' <= c && c <= '9' {
        Some((c as u32 - '0' as u32) as u8)
    } else if 'a' <= c && c <= 'f' {
        Some((c as u32 - 'a' as u32 + 10) as u8)
    } else if 'A' <= c && c <= 'F' {
        Some((c as u32 - 'A' as u32 + 10) as u8)
    } else {
        None
    }
}

/// The byte of the hexadecimal text `s[from..to]`.
fn hex_byte_of(s: &str, from: usize, to: usize) -> (r: Option<u8>)
    requires
        from <= to <= s@.len(),
    ensures
        r == hex_byte(s@.subrange(from as int, to as int)),
{
    let ghost h = s@.subrange(from as int, to as int);
    if to - from == 1 {
        hex_digit_of(s.get_char(from))
    } else if to - from == 2 {
        let a = s.get_char(from);
        let b = s.get_char(from + 1);
        if a == '+' {
            return hex_digit_of(b);
        }
        match (hex_digit_of(a), hex_digit_of(b)) {
            (Some(x), Some(y)) => {
                assert(x < 16 && y < 16);
                Some(x * 16 + y)
            },
            _ => None,
        }
    } else {
        None
    }
}

/// Decodes form text: `+` to a space and `%XX` to the byte it names.
pub fn url_decode(s: &str) -> (r: String)
    ensures
        r@ == url_decoded(s@),
{
    let n = s.unicode_len();
    let mut out = String::new();
    let mut i: usize = 0;
    assert(s@.subrange(0, n as int) =~= s@);
    while i < n
        invariant
            i <= n,
            n == s@.len(),
            url_decoded(s@) == out@ + url_decoded(s@.subrange(i as int, n as int)),
        decreases n - i,
    {
        let ghost rest = s@.subrange(i as int, n as int);
        let c = s.get_char(i);
        if c == '+' {
            out.append(" ");
            proof {
                reveal_strlit(" ");
                assert(rest.subrange(1, rest.len() as int) =~= s@.subrange(i + 1, n as int));
            }
            i = i + 1;
        } else if c == '%' {
            let k: usize = if n - i >= 3 { i + 3 } else { n };
            proof {
                assert(rest.subrange(1, (k - i) as int) =~= s@.subrange(i + 1, k as int));
                assert(rest.subrange((k - i) as int, rest.len() as int) =~= s@.subrange(k as int, n as int));
            }
            match hex_byte_of(s, i + 1, k) {
                Some(b) => {
                    let piece = char_string(b as char);
                    out.append(piece.as_str());
                },
                None => {
                    assert(out@ + Seq::<char>::empty() =~= out@);
                },
            }
            i = k;
        } else {
            out.append(s.substring_char(i, i + 1));
            proof {
                assert(s@.subrange(i as int, i + 1) =~= seq![c]);
                assert(rest.subrange(1, rest.len() as int) =~= s@.subrange(i + 1, n as int));
            }
            i = i + 1;
        }
    }
    assert(url_decoded(s@.subrange(n as int, n as int)) =~= Seq::<char>::empty());
    out
}

/// The predicate "is the character `&`".
pub open spec fn is_amp() -> spec_fn(char) -> bool {
    |c: char| c == '&'
}

/// Whether `seg` is `key=` followed by anything.
pub open spec fn is_param_of(seg: Seq<char>, key: Seq<char>) -> bool {
    &&& seg.len() > key.len()
    &&& seg.subrange(0, key.len() as int) == key
    &&& seg[key.len() as int] == '='
}

/// The decoded value of the first `&`-separated parameter `key=...` of a
/// form body, or the empty text when there is none.
pub open spec fn form_value(body: Seq<char>, key: Seq<char>) -> Seq<char>
    decreases body.len(),
{
    let p = first_position(body, is_amp());
    let seg = if p >= 0 { body.subrange(0, p) } else { body };
    if is_param_of(seg, key) {
        url_decoded(seg.subrange(key.len() as int + 1, seg.len() as int))
    } else if 0 <= p < body.len() {
        form_value(body.subrange(p + 1, body.len() as int), key)
    } else {
        Seq::empty()
    }
}

/// Whether `s[from..to]` is `key=` followed by anything.
fn param_matches(s: &str, from: usize, to: usize, key: &str) -> (r: bool)
    requires
        from <= to <= s@.len(),
    ensures
        r == is_param_of(s@.subrange(from as int, to as int), key@),
{
    let ghost seg = s@.subrange(from as int, to as int);
    let k = key.unicode_len();
    if to - from <= k {
        return false;
    }
    let mut i: usize = 0;
    while i < k
        invariant
            i <= k,
            k == key@.len(),
            k < to - from,
            to <= s@.len(),
            seg == s@.subrange(from as int, to as int),
            forall|j: int| 0 <= j < i ==> seg[j] == key@[j],
        decreases k - i,
    {
        if s.get_char(from + i) != key.get_char(i) {
            assert(seg.subrange(0, k as int)[i as int] != key@[i as int]);
            return false;
        }
        i = i + 1;
    }
    assert(seg.subrange(0, k as int) =~= key@);
    s.get_char(from + k) == '='
}

/// The decoded value of the parameter `key` of a form body.
pub fn parse_form_value(body: &str, key: &str) -> (r: String)
    ensures
        r@ == form_value(body@, key@),
{
    let n = body.unicode_len();
    let mut j: usize = 0;
    assert(body@.subrange(0, n as int) =~= body@);
    while j <= n
        invariant
            j <= n,
            n == body@.len(),
            form_value(body@, key@) == form_value(body@.subrange(j as int, n as int), key@),
        decreases n + 1 - j,
    {
        let ghost rest = body@.subrange(j as int, n as int);
        let mut e: usize = j;
        while e < n && body.get_char(e) != '&'
            invariant
                j <= e <= n,
                n == body@.len(),
                forall|t: int| j <= t < e ==> body@[t] != '&',
            decreases n - e,
        {
            e = e + 1;
        }
        proof {
            if e < n {
                assert forall|t: int| 0 <= t < e - j implies !is_amp()(#[trigger] rest[t]) by {
                    assert(rest[t] == body@[j + t]);
                }
                lemma_first_position_is(rest, is_amp(), e - j);
                assert(rest.subrange(0, e - j) =~= body@.subrange(j as int, e as int));
                assert(rest.subrange(e - j + 1, rest.len() as int) =~= body@.subrange(e + 1, n as int));
            } else {
                assert forall|t: int| 0 <= t < rest.len() implies !is_amp()(#[trigger] rest[t]) by {
                    assert(rest[t] == body@[j + t]);
                }
                lemma_first_position_is(rest, is_amp(), -1);
            }
        }
        if param_matches(body, j, e, key) {
            let k = key.unicode_len();
            let raw = body.substring_char(j + k + 1, e);
            proof {
                let seg = body@.subrange(j as int, e as int);
                assert(seg.subrange(k + 1, seg.len() as int) =~= body@.subrange(j + k + 1, e as int));
            }
            return url_decode(raw);
        }
        if e >= n {
            return String::new();
        }
        j = e + 1;
    }
    String::new()
}

} // verus!

//! Character-sequence utilities: lexicographic ordering of strings and the
//! escaping rules used when embedding values in JSON bodies and HTML attributes.

use vstd::prelude::*;
use vstd::string::*;

verus! {

/// Strict lexicographic order on character sequences by Unicode code point.
/// A proper prefix is smaller than the longer sequence.
pub open spec fn lex_lt(a: Seq<char>, b: Seq<char>) -> bool
    decreases a.len(),
{
    if b.len() == 0 {
        false
    } else if a.len() == 0 {
        true
    } else if a[0] != b[0] {
        (a[0] as u32) < (b[0] as u32)
    } else {
        lex_lt(a.drop_first(), b.drop_first())
    }
}

pub proof fn lemma_lex_lt_irreflexive(a: Seq<char>)
    ensures
        !lex_lt(a, a),
    decreases a.len(),
{
    if a.len() > 0 {
        lemma_lex_lt_irreflexive(a.drop_first());
    }
}

/// Any two distinct character sequences are ordered one way or the other.
pub proof fn lemma_lex_lt_connected(a: Seq<char>, b: Seq<char>)
    requires
        a != b,
    ensures
        lex_lt(a, b) || lex_lt(b, a),
    decreases a.len(),
{
    if a.len() == 0 && b.len() == 0 {
        assert(a =~= b);
    } else if a.len() == 0 || b.len() == 0 {
    } else if a[0] != b[0] {
        vstd::utf8::char_u32_cast(a[0], a[0] as u32);
        vstd::utf8::char_u32_cast(b[0], b[0] as u32);
        assert((a[0] as u32) != (b[0] as u32));
    } else {
        if a.drop_first() =~= b.drop_first() {
            assert forall|k: int| 0 <= k < a.len() implies a[k] == b[k] by {
                if k > 0 {
                    assert(a.drop_first()[k - 1] == b.drop_first()[k - 1]);
                }
            }
            assert(a =~= b);
        }
        lemma_lex_lt_connected(a.drop_first(), b.drop_first());
    }
}

pub proof fn lemma_lex_lt_asymmetric(a: Seq<char>, b: Seq<char>)
    requires
        lex_lt(a, b),
    ensures
        !lex_lt(b, a),
    decreases a.len(),
{
    if a.len() > 0 && b.len() > 0 && a[0] == b[0] {
        lemma_lex_lt_asymmetric(a.drop_first(), b.drop_first());
    }
}

pub proof fn lemma_lex_lt_transitive(a: Seq<char>, b: Seq<char>, c: Seq<char>)
    requires
        lex_lt(a, b),
        lex_lt(b, c),
    ensures
        lex_lt(a, c),
    decreases a.len(),
{
    if a.len() == 0 {
    } else if a[0] == b[0] && b[0] == c[0] {
        lemma_lex_lt_transitive(a.drop_first(), b.drop_first(), c.drop_first());
    }
}

/// Ordering two sequences is unchanged by dropping a common prefix.
pub proof fn lemma_lex_lt_skip_common_prefix(a: Seq<char>, b: Seq<char>, i: int)
    requires
        0 <= i <= a.len(),
        i <= b.len(),
        a.take(i) == b.take(i),
    ensures
        lex_lt(a, b) == lex_lt(a.skip(i), b.skip(i)),
    decreases i,
{
    if i == 0 {
        assert(a.skip(0) =~= a);
        assert(b.skip(0) =~= b);
    } else {
        assert(a.take(i)[0] == a[0]);
        assert(b.take(i)[0] == b[0]);
        assert(a.drop_first().take(i - 1) =~= a.take(i).drop_first());
        assert(b.drop_first().take(i - 1) =~= b.take(i).drop_first());
        lemma_lex_lt_skip_common_prefix(a.drop_first(), b.drop_first(), i - 1);
        assert(a.drop_first().skip(i - 1) =~= a.skip(i));
        assert(b.drop_first().skip(i - 1) =~= b.skip(i));
    }
}

/// Decides `lex_lt` on two strings.
pub fn str_lt(a: &str, b: &str) -> (r: bool)
    ensures
        r == lex_lt(a@, b@),
{
    let alen: usize = a.unicode_len();
    let blen: usize = b.unicode_len();
    let mut i: usize = 0;
    loop
        invariant
            i <= alen,
            i <= blen,
            alen == a@.len(),
            blen == b@.len(),
            a@.take(i as int) == b@.take(i as int),
        decreases alen - i,
    {
        proof {
            lemma_lex_lt_skip_common_prefix(a@, b@, i as int);
        }
        if i == alen {
            assert(a@.skip(i as int) =~= Seq::<char>::empty());
            return alen < blen;
        }
        if i == blen {
            assert(b@.skip(i as int) =~= Seq::<char>::empty());
            return false;
        }
        let ca = a.get_char(i);
        let cb = b.get_char(i);
        if ca != cb {
            assert(a@.skip(i as int)[0] == a@[i as int]);
            assert(b@.skip(i as int)[0] == b@[i as int]);
            return (ca as u32) < (cb as u32);
        }
        proof {
            assert(a@.take(i + 1) =~= b@.take(i + 1));
        }
        i = i + 1;
    }
}

/// Decides equality of the character sequences of two strings.
pub fn str_eq(a: &str, b: &str) -> (r: bool)
    ensures
        r == (a@ == b@),
{
    let alen: usize = a.unicode_len();
    let blen: usize = b.unicode_len();
    if alen != blen {
        return false;
    }
    let mut i: usize = 0;
    while i < alen
        invariant
            i <= alen,
            alen == a@.len(),
            alen == b@.len(),
            a@.take(i as int) == b@.take(i as int),
        decreases alen - i,
    {
        let ca = a.get_char(i);
        let cb = b.get_char(i);
        if ca != cb {
            assert(a@[i as int] != b@[i as int]);
            return false;
        }
        proof {
            assert(a@.take(i + 1) =~= b@.take(i + 1));
        }
        i = i + 1;
    }
    proof {
        assert(a@.take(alen as int) =~= a@);
        assert(b@.take(alen as int) =~= b@);
    }
    true
}

/// The hexadecimal digit character for a value below sixteen.
pub open spec fn hex_digit(n: int) -> char {
    if n == 0 { '0' } else if n == 1 { '1' } else if n == 2 { '2' } else if n == 3 { '3' }
    else if n == 4 { '4' } else if n == 5 { '5' } else if n == 6 { '6' } else if n == 7 { '7' }
    else if n == 8 { '8' } else if n == 9 { '9' } else if n == 10 { 'a' } else if n == 11 { 'b' }
    else if n == 12 { 'c' } else if n == 13 { 'd' } else if n == 14 { 'e' } else { 'f' }
}

fn hex_digit_str(n: u32) -> (r: &'static str)
    requires
        n < 16,
    ensures
        r@ =~= seq![hex_digit(n as int)],
{
    let s: &'static str = if n == 0 { "0" } else if n == 1 { "1" } else if n == 2 { "2" }
    else if n == 3 { "3" } else if n == 4 { "4" } else if n == 5 { "5" } else if n == 6 { "6" }
    else if n == 7 { "7" } else if n == 8 { "8" } else if n == 9 { "9" } else if n == 10 { "a" }
    else if n == 11 { "b" } else if n == 12 { "c" } else if n == 13 { "d" } else if n == 14 { "e" }
    else { "f" };
    proof {
        reveal_strlit("0"); reveal_strlit("1"); reveal_strlit("2"); reveal_strlit("3");
        reveal_strlit("4"); reveal_strlit("5"); reveal_strlit("6"); reveal_strlit("7");
        reveal_strlit("8"); reveal_strlit("9"); reveal_strlit("a"); reveal_strlit("b");
        reveal_strlit("c"); reveal_strlit("d"); reveal_strlit("e"); reveal_strlit("f");
    }
    s
}

/// How one character is written inside a JSON string literal.
pub open spec fn json_escape_char(c: char) -> Seq<char> {
    if c == '"' {
        "\\\""@
    } else if c == '\\' {
        "\\\\"@
    } else if c == '\n' {
        "\\n"@
    } else if c == '\r' {
        "\\r"@
    } else if c == '\t' {
        "\\t"@
    } else if (c as u32) < 0x20 {
        "\\u00"@ + seq![hex_digit((c as u32) as int / 16), hex_digit((c as u32) as int % 16)]
    } else {
        seq![c]
    }
}

/// The body of a JSON string literal for a character sequence.
pub open spec fn json_escape(s: Seq<char>) -> Seq<char>
    decreases s.len(),
{
    if s.len() == 0 {
        Seq::empty()
    } else {
        json_escape(s.drop_last()) + json_escape_char(s.last())
    }
}

proof fn lemma_json_escape_step(s: Seq<char>, i: int)
    requires
        0 <= i < s.len(),
    ensures
        json_escape(s.take(i + 1)) == json_escape(s.take(i)) + json_escape_char(s[i]),
{
    assert(s.take(i + 1).drop_last() =~= s.take(i));
    assert(s.take(i + 1).last() == s[i]);
}

/// Escapes a string for inclusion in a JSON string literal.
pub fn json_escape_str(s: &str) -> (r: String)
    ensures
        r@ == json_escape(s@),
{
    let len: usize = s.unicode_len();
    let mut out = String::new();
    let mut i: usize = 0;
    while i < len
        invariant
            i <= len,
            len == s@.len(),
            out@ == json_escape(s@.take(i as int)),
        decreases len - i,
    {
        let c = s.get_char(i);
        proof {
            lemma_json_escape_step(s@, i as int);
        }
        if c == '"' {
            out.append("\\\"");
        } else if c == '\\' {
            out.append("\\\\");
        } else if c == '\n' {
            out.append("\\n");
        } else if c == '\r' {
            out.append("\\r");
        } else if c == '\t' {
            out.append("\\t");
        } else if (c as u32) < 0x20 {
            out.append("\\u00");
            out.append(hex_digit_str((c as u32) / 16));
            out.append(hex_digit_str((c as u32) % 16));
            proof {
                assert(out@ =~= json_escape(s@.take(i as int)) + json_escape_char(s@[i as int]));
            }
        } else {
            let piece = s.substring_char(i, i + 1);
            proof {
                assert(piece@ =~= seq![s@[i as int]]);
            }
            out.append(piece);
        }
        i = i + 1;
    }
    proof {
        assert(s@.take(len as int) =~= s@);
    }
    out
}

/// How one character is written inside an HTML attribute value.
pub open spec fn html_escape_char(c: char) -> Seq<char> {
    if c == '&' {
        "&amp;"@
    } else if c == '<' {
        "&lt;"@
    } else if c == '>' {
        "&gt;"@
    } else if c == '"' {
        "&quot;"@
    } else if c == '\'' {
        "&#x27;"@
    } else {
        seq![c]
    }
}

/// HTML-attribute escaping of a character sequence.
pub open spec fn html_escape(s: Seq<char>) -> Seq<char>
    decreases s.len(),
{
    if s.len() == 0 {
        Seq::empty()
    } else {
        html_escape(s.drop_last()) + html_escape_char(s.last())
    }
}

proof fn lemma_html_escape_step(s: Seq<char>, i: int)
    requires
        0 <= i < s.len(),
    ensures
        html_escape(s.take(i + 1)) == html_escape(s.take(i)) + html_escape_char(s[i]),
{
    assert(s.take(i + 1).drop_last() =~= s.take(i));
    assert(s.take(i + 1).last() == s[i]);
}

/// Escapes a string so it stays well-formed inside a quoted HTML attribute.
pub fn html_escape_str(s: &str) -> (r: String)
    ensures
        r@ == html_escape(s@),
{
    let len: usize = s.unicode_len();
    let mut out = String::new();
    let mut i: usize = 0;
    while i < len
        invariant
            i <= len,
            len == s@.len(),
            out@ == html_escape(s@.take(i as int)),
        decreases len - i,
    {
        let c = s.get_char(i);
        proof {
            lemma_html_escape_step(s@, i as int);
        }
        if c == '&' {
            out.append("&amp;");
        } else if c == '<' {
            out.append("&lt;");
        } else if c == '>' {
            out.append("&gt;");
        } else if c == '"' {
            out.append("&quot;");
        } else if c == '\'' {
            out.append("&#x27;");
        } else {
            let piece = s.substring_char(i, i + 1);
            proof {
                assert(piece@ =~= seq![s@[i as int]]);
            }
            out.append(piece);
        }
        i = i + 1;
    }
    proof {
        assert(s@.take(len as int) =~= s@);
    }
    out
}

/// A JSON string literal for a character sequence.
pub open spec fn json_quote(s: Seq<char>) -> Seq<char> {
    "\""@ + json_escape(s) + "\""@
}

/// Appends a JSON string literal for `s`.
pub(crate) fn append_json_quoted(out: &mut String, s: &str)
    ensures
        final(out)@ == old(out)@ + json_quote(s@),
{
    out.append("\"");
    let esc = json_escape_str(s);
    out.append(esc.as_str());
    out.append("\"");
}

} // verus!

//! The wire form of a history entry: a JSON object with the entry's
//! id, content, timestamp, pinned flag and preview, exactly as the
//! presentation layer and any persistence consume it. The encoder
//! writes a canonical form; the decoder reads that form back, and
//! decoding an encoded entry returns the entry unchanged.

use vstd::prelude::*;

use crate::item::{ClipboardContent, ClipboardItem, ContentView, ItemView};
use crate::text::{
    all_digits, chars_of, dec_val, digit_val, fmt_u64, is_digit_char, lemma_dec_val_take_mono,
    lemma_u64_digits, string_of_chars, u64_digits,
};

verus! {

/// The hexadecimal digit character for `d`, lowercase.
pub open spec fn hex_digit(d: u32) -> char
    recommends
        d < 16,
{
    if d == 0 {
        '0'
    } else if d == 1 {
        '1'
    } else if d == 2 {
        '2'
    } else if d == 3 {
        '3'
    } else if d == 4 {
        '4'
    } else if d == 5 {
        '5'
    } else if d == 6 {
        '6'
    } else if d == 7 {
        '7'
    } else if d == 8 {
        '8'
    } else if d == 9 {
        '9'
    } else if d == 10 {
        'a'
    } else if d == 11 {
        'b'
    } else if d == 12 {
        'c'
    } else if d == 13 {
        'd'
    } else if d == 14 {
        'e'
    } else {
        'f'
    }
}

/// The value of a lowercase hexadecimal digit; 16 for any other
/// character.
pub open spec fn hex_val(c: char) -> u32 {
    if c == '0' {
        0
    } else if c == '1' {
        1
    } else if c == '2' {
        2
    } else if c == '3' {
        3
    } else if c == '4' {
        4
    } else if c == '5' {
        5
    } else if c == '6' {
        6
    } else if c == '7' {
        7
    } else if c == '8' {
        8
    } else if c == '9' {
        9
    } else if c == 'a' {
        10
    } else if c == 'b' {
        11
    } else if c == 'c' {
        12
    } else if c == 'd' {
        13
    } else if c == 'e' {
        14
    } else if c == 'f' {
        15
    } else {
        16
    }
}

fn hex_digit_of(d: u32) -> (c: char)
    requires
        d < 16,
    ensures
        c == hex_digit(d),
{
    if d == 0 {
        '0'
    } else if d == 1 {
        '1'
    } else if d == 2 {
        '2'
    } else if d == 3 {
        '3'
    } else if d == 4 {
        '4'
    } else if d == 5 {
        '5'
    } else if d == 6 {
        '6'
    } else if d == 7 {
        '7'
    } else if d == 8 {
        '8'
    } else if d == 9 {
        '9'
    } else if d == 10 {
        'a'
    } else if d == 11 {
        'b'
    } else if d == 12 {
        'c'
    } else if d == 13 {
        'd'
    } else if d == 14 {
        'e'
    } else {
        'f'
    }
}

fn hex_val_of(c: char) -> (r: u32)
    ensures
        r == hex_val(c),
{
    if c == '0' {
        0
    } else if c == '1' {
        1
    } else if c == '2' {
        2
    } else if c == '3' {
        3
    } else if c == '4' {
        4
    } else if c == '5' {
        5
    } else if c == '6' {
        6
    } else if c == '7' {
        7
    } else if c == '8' {
        8
    } else if c == '9' {
        9
    } else if c == 'a' {
        10
    } else if c == 'b' {
        11
    } else if c == 'c' {
        12
    } else if c == 'd' {
        13
    } else if c == 'e' {
        14
    } else if c == 'f' {
        15
    } else {
        16
    }
}

proof fn lemma_ctl_char_code(c: char)
    requires
        (c as u32) < 0x20,
    ensures
        (((c as u32) as u8) as char) == c,
{
}

/// The wire form of one character inside a quoted string: quotes,
/// backslashes, newlines, carriage returns and tabs take their short
/// escapes, any other control character below U+0020 is written
/// `\u00XX`, and every remaining character stands for itself.
pub open spec fn esc_char(c: char) -> Seq<char> {
    if c == '"' {
        seq!['\\', '"']
    } else if c == '\\' {
        seq!['\\', '\\']
    } else if c == '\n' {
        seq!['\\', 'n']
    } else if c == '\r' {
        seq!['\\', 'r']
    } else if c == '\t' {
        seq!['\\', 't']
    } else if (c as u32) < 0x20 {
        seq!['\\', 'u', '0', '0', hex_digit((c as u32) / 16), hex_digit((c as u32) % 16)]
    } else {
        seq![c]
    }
}

/// The wire form of a string's characters.
pub open spec fn escape(s: Seq<char>) -> Seq<char>
    decreases s.len(),
{
    if s.len() == 0 {
        Seq::<char>::empty()
    } else {
        esc_char(s[0]) + escape(s.drop_first())
    }
}

/// A string in quotes, escaped.
pub open spec fn quoted(s: Seq<char>) -> Seq<char> {
    seq!['"'] + escape(s) + seq!['"']
}

/// The wire form of an entry's content.
pub open spec fn enc_content(c: ContentView) -> Seq<char> {
    match c {
        ContentView::Text(t) => "{\"type\":\"Text\",\"data\":"@ + quoted(t) + "}"@,
        ContentView::Image { base64, width, height } => "{\"type\":\"Image\",\"data\":{\"base64\":"@
            + quoted(base64) + ",\"width\":"@ + u64_digits(width as u64) + ",\"height\":"@
            + u64_digits(height as u64) + "}}"@,
    }
}

/// The wire form of a whole entry.
pub open spec fn enc_entry(e: ItemView) -> Seq<char> {
    "{\"id\":"@ + quoted(e.id) + ",\"content\":"@ + enc_content(e.content) + ",\"timestamp\":"@
        + quoted(e.timestamp) + ",\"pinned\":"@ + (if e.pinned {
        "true"@
    } else {
        "false"@
    }) + ",\"preview\":"@ + quoted(e.preview) + "}"@
}

/// Drop the literal `lit` from the front of `s`, if it is there.
pub open spec fn expect(s: Seq<char>, lit: Seq<char>) -> Option<Seq<char>> {
    if lit.len() <= s.len() && s.take(lit.len() as int) == lit {
        Some(s.skip(lit.len() as int))
    } else {
        None
    }
}

/// The character an escape sequence stands for.
pub open spec fn unesc_char(c: char) -> Option<char> {
    if c == '"' {
        Some('"')
    } else if c == '\\' {
        Some('\\')
    } else if c == 'n' {
        Some('\n')
    } else if c == 'r' {
        Some('\r')
    } else if c == 't' {
        Some('\t')
    } else {
        None
    }
}

/// Read a string body up to its closing quote, undoing escapes; yields
/// the string and what follows the quote.
pub open spec fn parse_string_body(s: Seq<char>) -> Option<(Seq<char>, Seq<char>)>
    decreases s.len(),
{
    if s.len() == 0 {
        None
    } else if s[0] == '"' {
        Some((Seq::<char>::empty(), s.drop_first()))
    } else if s[0] == '\\' {
        if s.len() < 2 {
            None
        } else if s[1] == 'u' {
            if s.len() < 6 {
                None
            } else if s[2] == '0' && s[3] == '0' && hex_val(s[4]) < 2 && hex_val(s[5]) < 16 {
                match parse_string_body(s.skip(6)) {
                    Some(p) => Some(
                        (seq![(((hex_val(s[4]) * 16 + hex_val(s[5])) as u8) as char)] + p.0, p.1),
                    ),
                    None => None,
                }
            } else {
                None
            }
        } else {
            match unesc_char(s[1]) {
                Some(ch) => match parse_string_body(s.skip(2)) {
                    Some(p) => Some((seq![ch] + p.0, p.1)),
                    None => None,
                },
                None => None,
            }
        }
    } else {
        match parse_string_body(s.drop_first()) {
            Some(p) => Some((seq![s[0]] + p.0, p.1)),
            None => None,
        }
    }
}

/// Read a quoted string: an opening quote, the body, the closing quote.
pub open spec fn parse_quoted(s: Seq<char>) -> Option<(Seq<char>, Seq<char>)> {
    if s.len() >= 1 && s[0] == '"' {
        parse_string_body(s.drop_first())
    } else {
        None
    }
}

/// The length of the run of digits at the front of `s`.
pub open spec fn digit_run_len(s: Seq<char>) -> nat
    decreases s.len(),
{
    if s.len() == 0 || !is_digit_char(s[0]) {
        0
    } else {
        1 + digit_run_len(s.drop_first())
    }
}

/// Read the number the leading digit run spells, if there is one and
/// its value fits in a `u64`.
pub open spec fn parse_number(s: Seq<char>) -> Option<(u64, Seq<char>)> {
    if digit_run_len(s) >= 1 && dec_val(s.take(digit_run_len(s) as int)) <= u64::MAX {
        Some(
            (
                dec_val(s.take(digit_run_len(s) as int)) as u64,
                s.skip(digit_run_len(s) as int),
            ),
        )
    } else {
        None
    }
}

/// Read a boolean literal.
pub open spec fn parse_bool(s: Seq<char>) -> Option<(bool, Seq<char>)> {
    match expect(s, "true"@) {
        Some(r) => Some((true, r)),
        None => match expect(s, "false"@) {
            Some(r) => Some((false, r)),
            None => None,
        },
    }
}

/// Read an entry's content.
pub open spec fn parse_content(s: Seq<char>) -> Option<(ContentView, Seq<char>)> {
    match expect(s, "{\"type\":\"Text\",\"data\":"@) {
        Some(s1) => match parse_quoted(s1) {
            Some(p1) => match expect(p1.1, "}"@) {
                Some(s2) => Some((ContentView::Text(p1.0), s2)),
                None => None,
            },
            None => None,
        },
        None => match expect(s, "{\"type\":\"Image\",\"data\":{\"base64\":"@) {
            Some(s1) => match parse_quoted(s1) {
                Some(p1) => match expect(p1.1, ",\"width\":"@) {
                    Some(s2) => match parse_number(s2) {
                        Some(p2) => if p2.0 <= u32::MAX {
                            match expect(p2.1, ",\"height\":"@) {
                                Some(s3) => match parse_number(s3) {
                                    Some(p3) => if p3.0 <= u32::MAX {
                                        match expect(p3.1, "}}"@) {
                                            Some(s4) => Some(
                                                (
                                                    ContentView::Image {
                                                        base64: p1.0,
                                                        width: p2.0 as u32,
                                                        height: p3.0 as u32,
                                                    },
                                                    s4,
                                                ),
                                            ),
                                            None => None,
                                        }
                                    } else {
                                        None
                                    },
                                    None => None,
                                },
                                None => None,
                            }
                        } else {
                            None
                        },
                        None => None,
                    },
                    None => None,
                },
                None => None,
            },
            None => None,
        },
    }
}

/// Read a whole entry.
pub open spec fn parse_entry(s: Seq<char>) -> Option<(ItemView, Seq<char>)> {
    match expect(s, "{\"id\":"@) {
        Some(s1) => match parse_quoted(s1) {
            Some(pid) => match expect(pid.1, ",\"content\":"@) {
                Some(s2) => match parse_content(s2) {
                    Some(pc) => match expect(pc.1, ",\"timestamp\":"@) {
                        Some(s3) => match parse_quoted(s3) {
                            Some(pts) => match expect(pts.1, ",\"pinned\":"@) {
                                Some(s4) => match parse_bool(s4) {
                                    Some(pb) => match expect(pb.1, ",\"preview\":"@) {
                                        Some(s5) => match parse_quoted(s5) {
                                            Some(ppv) => match expect(ppv.1, "}"@) {
                                                Some(s6) => Some(
                                                    (
                                                        ItemView {
                                                            id: pid.0,
                                                            content: pc.0,
                                                            timestamp: pts.0,
                                                            pinned: pb.0,
                                                            preview: ppv.0,
                                                        },
                                                        s6,
                                                    ),
                                                ),
                                                None => None,
                                            },
                                            None => None,
                                        },
                                        None => None,
                                    },
                                    None => None,
                                },
                                None => None,
                            },
                            None => None,
                        },
                        None => None,
                    },
                    None => None,
                },
                None => None,
            },
            None => None,
        },
        None => None,
    }
}

/// What decoding a wire string yields: the entry, provided the whole
/// string is consumed.
pub open spec fn decode_spec(s: Seq<char>) -> Option<ItemView> {
    match parse_entry(s) {
        Some(p) => if p.1.len() == 0 {
            Some(p.0)
        } else {
            None
        },
        None => None,
    }
}

proof fn lemma_expect_concat(lit: Seq<char>, rest: Seq<char>)
    ensures
        expect(lit + rest, lit) == Some(rest),
{
    assert((lit + rest).take(lit.len() as int) =~= lit);
    assert((lit + rest).skip(lit.len() as int) =~= rest);
}

proof fn lemma_parse_string_of_escape(s: Seq<char>, rest: Seq<char>)
    ensures
        parse_string_body(escape(s) + seq!['"'] + rest) == Some((s, rest)),
    decreases s.len(),
{
    let input = escape(s) + seq!['"'] + rest;
    if s.len() == 0 {
        assert(escape(s) =~= Seq::<char>::empty());
        assert(input =~= seq!['"'] + rest);
        assert(input[0] == '"');
        assert(input.drop_first() =~= rest);
    } else {
        let c = s[0];
        let tail = s.drop_first();
        assert(escape(s) == esc_char(c) + escape(tail));
        lemma_parse_string_of_escape(tail, rest);
        if c == '"' || c == '\\' || c == '\n' || c == '\r' || c == '\t' {
            let x: char = if c == '"' {
                '"'
            } else if c == '\\' {
                '\\'
            } else if c == '\n' {
                'n'
            } else if c == '\r' {
                'r'
            } else {
                't'
            };
            assert(esc_char(c) == seq!['\\', x]);
            assert(input[0] == '\\');
            assert(input[1] == x);
            assert(unesc_char(x) == Some(c));
            assert(input.skip(2) =~= escape(tail) + seq!['"'] + rest);
            assert(seq![c] + tail =~= s);
        } else if (c as u32) < 0x20 {
            let u = c as u32;
            assert(esc_char(c) == seq![
                '\\', 'u', '0', '0', hex_digit(u / 16), hex_digit(u % 16),
            ]);
            assert(input[0] == '\\');
            assert(input[1] == 'u');
            assert(input[2] == '0');
            assert(input[3] == '0');
            assert(input[4] == hex_digit(u / 16));
            assert(input[5] == hex_digit(u % 16));
            assert(u / 16 < 2);
            assert(hex_val(hex_digit(u / 16)) == u / 16);
            assert(hex_val(hex_digit(u % 16)) == u % 16);
            assert(hex_val(input[4]) * 16 + hex_val(input[5]) == u);
            lemma_ctl_char_code(c);
            assert(((hex_val(input[4]) * 16 + hex_val(input[5])) as u8) == (u as u8));
            assert((((hex_val(input[4]) * 16 + hex_val(input[5])) as u8) as char) == c);
            assert(input.skip(6) =~= escape(tail) + seq!['"'] + rest);
            assert(seq![c] + tail =~= s);
        } else {
            assert(esc_char(c) == seq![c]);
            assert(input[0] == c);
            assert(c != '"' && c != '\\');
            assert(input.drop_first() =~= escape(tail) + seq!['"'] + rest);
            assert(seq![c] + tail =~= s);
        }
    }
}

proof fn lemma_parse_quoted_of_quoted(s: Seq<char>, rest: Seq<char>)
    ensures
        parse_quoted(quoted(s) + rest) == Some((s, rest)),
{
    let input = quoted(s) + rest;
    assert(input[0] == '"');
    assert(input.len() >= 1);
    assert(input.drop_first() =~= escape(s) + seq!['"'] + rest);
    lemma_parse_string_of_escape(s, rest);
}

proof fn lemma_digit_run_of(d: Seq<char>, rest: Seq<char>)
    requires
        all_digits(d),
        rest.len() > 0 ==> !is_digit_char(rest[0]),
    ensures
        digit_run_len(d + rest) == d.len(),
    decreases d.len(),
{
    if d.len() == 0 {
        assert(d + rest =~= rest);
    } else {
        assert((d + rest)[0] == d[0]);
        assert(is_digit_char(d[0]));
        assert((d + rest).drop_first() =~= d.drop_first() + rest);
        assert forall|j: int| 0 <= j < d.drop_first().len() implies is_digit_char(
            d.drop_first()[j],
        ) by {
            assert(d.drop_first()[j] == d[j + 1]);
        }
        lemma_digit_run_of(d.drop_first(), rest);
    }
}

proof fn lemma_parse_number_of_digits(n: u64, rest: Seq<char>)
    requires
        rest.len() > 0 ==> !is_digit_char(rest[0]),
    ensures
        parse_number(u64_digits(n) + rest) == Some((n, rest)),
{
    let d = u64_digits(n);
    lemma_u64_digits(n);
    lemma_digit_run_of(d, rest);
    assert((d + rest).take(d.len() as int) =~= d);
    assert((d + rest).skip(d.len() as int) =~= rest);
}

proof fn lemma_parse_bool_of(b: bool, rest: Seq<char>)
    requires
        rest.len() > 0 ==> rest[0] != 'e',
    ensures
        parse_bool((if b {
            "true"@
        } else {
            "false"@
        }) + rest) == Some((b, rest)),
{
    reveal_strlit("true");
    reveal_strlit("false");
    if b {
        lemma_expect_concat("true"@, rest);
    } else {
        let input = "false"@ + rest;
        assert(expect(input, "true"@) is None) by {
            if expect(input, "true"@) is Some {
                assert(input.take(4)[0] == 't');
                assert(input[0] == 'f');
            }
        }
        lemma_expect_concat("false"@, rest);
    }
}

#[verifier::rlimit(60)]
proof fn lemma_parse_content_of_enc(c: ContentView, rest: Seq<char>)
    requires
        rest.len() > 0 ==> rest[0] != '}',
    ensures
        parse_content(enc_content(c) + rest) == Some((c, rest)),
{
    reveal_strlit("{\"type\":\"Text\",\"data\":");
    reveal_strlit("{\"type\":\"Image\",\"data\":{\"base64\":");
    reveal_strlit(",\"width\":");
    reveal_strlit(",\"height\":");
    reveal_strlit("}");
    reveal_strlit("}}");
    let input = enc_content(c) + rest;
    match c {
        ContentView::Text(t) => {
            let lit = "{\"type\":\"Text\",\"data\":"@;
            assert(input =~= lit + (quoted(t) + ("}"@ + rest)));
            lemma_expect_concat(lit, quoted(t) + ("}"@ + rest));
            lemma_parse_quoted_of_quoted(t, "}"@ + rest);
            lemma_expect_concat("}"@, rest);
        },
        ContentView::Image { base64, width, height } => {
            let lit = "{\"type\":\"Image\",\"data\":{\"base64\":"@;
            let tlit = "{\"type\":\"Text\",\"data\":"@;
            assert(expect(input, tlit) is None) by {
                if expect(input, tlit) is Some {
                    assert(input.take(tlit.len() as int)[9] == tlit[9]);
                    assert(tlit[9] == 'T');
                    assert(input[9] == lit[9]);
                    assert(lit[9] == 'I');
                }
            }
            let wlit = ",\"width\":"@;
            let hlit = ",\"height\":"@;
            let dw = u64_digits(width as u64);
            let dh = u64_digits(height as u64);
            let after_b64 = wlit + (dw + (hlit + (dh + ("}}"@ + rest))));
            assert(input =~= lit + (quoted(base64) + after_b64));
            lemma_expect_concat(lit, quoted(base64) + after_b64);
            lemma_parse_quoted_of_quoted(base64, after_b64);
            lemma_expect_concat(wlit, dw + (hlit + (dh + ("}}"@ + rest))));
            assert((hlit + (dh + ("}}"@ + rest)))[0] == ',');
            assert(!is_digit_char(','));
            lemma_parse_number_of_digits(width as u64, hlit + (dh + ("}}"@ + rest)));
            lemma_expect_concat(hlit, dh + ("}}"@ + rest));
            assert(("}}"@ + rest)[0] == '}');
            assert(!is_digit_char('}'));
            lemma_parse_number_of_digits(height as u64, "}}"@ + rest);
            lemma_expect_concat("}}"@, rest);
            assert((width as u64) <= u32::MAX);
            assert((height as u64) <= u32::MAX);
        },
    }
}

proof fn lemma_parse_entry_of_enc(e: ItemView, rest: Seq<char>)
    requires
        rest.len() == 0,
    ensures
        parse_entry(enc_entry(e) + rest) == Some((e, rest)),
{
    reveal_strlit("{\"id\":");
    reveal_strlit(",\"content\":");
    reveal_strlit(",\"timestamp\":");
    reveal_strlit(",\"pinned\":");
    reveal_strlit(",\"preview\":");
    reveal_strlit("}");
    reveal_strlit("true");
    reveal_strlit("false");
    let idlit = "{\"id\":"@;
    let clit = ",\"content\":"@;
    let tslit = ",\"timestamp\":"@;
    let plit = ",\"pinned\":"@;
    let pvlit = ",\"preview\":"@;
    let blit: Seq<char> = if e.pinned {
        "true"@
    } else {
        "false"@
    };
    let input = enc_entry(e) + rest;
    let t5 = "}"@ + rest;
    let t4 = pvlit + (quoted(e.preview) + t5);
    let t3 = plit + (blit + t4);
    let t2 = tslit + (quoted(e.timestamp) + t3);
    let t1 = clit + (enc_content(e.content) + t2);
    assert(input =~= idlit + (quoted(e.id) + t1));
    lemma_expect_concat(idlit, quoted(e.id) + t1);
    lemma_parse_quoted_of_quoted(e.id, t1);
    lemma_expect_concat(clit, enc_content(e.content) + t2);
    assert(t2[0] == ',');
    lemma_parse_content_of_enc(e.content, t2);
    lemma_expect_concat(tslit, quoted(e.timestamp) + t3);
    lemma_parse_quoted_of_quoted(e.timestamp, t3);
    lemma_expect_concat(plit, blit + t4);
    assert(t4[0] == ',');
    lemma_parse_bool_of(e.pinned, t4);
    lemma_expect_concat(pvlit, quoted(e.preview) + t5);
    lemma_parse_quoted_of_quoted(e.preview, t5);
    lemma_expect_concat("}"@, rest);
}

/// Round trip: decoding an entry's wire form yields the entry, every
/// field preserved.
pub proof fn lemma_wire_round_trip(e: ItemView)
    ensures
        decode_spec(enc_entry(e)) == Some(e),
{
    lemma_parse_entry_of_enc(e, Seq::<char>::empty());
    assert(enc_entry(e) + Seq::<char>::empty() =~= enc_entry(e));
}

proof fn lemma_escape_concat(a: Seq<char>, b: Seq<char>)
    ensures
        escape(a + b) == escape(a) + escape(b),
    decreases a.len(),
{
    if a.len() == 0 {
        assert(a + b =~= b);
        assert(escape(a) + escape(b) =~= escape(b));
    } else {
        assert((a + b)[0] == a[0]);
        assert((a + b).drop_first() =~= a.drop_first() + b);
        lemma_escape_concat(a.drop_first(), b);
        assert(escape(a + b) == esc_char(a[0]) + (escape(a.drop_first()) + escape(b)));
        assert(esc_char(a[0]) + (escape(a.drop_first()) + escape(b)) =~= (esc_char(a[0])
            + escape(a.drop_first())) + escape(b));
    }
}

fn push_str_chars(out: &mut Vec<char>, s: &str)
    ensures
        final(out)@ == old(out)@ + s@,
{
    let cs = chars_of(s);
    let n = cs.len();
    let mut i: usize = 0;
    while i < n
        invariant
            n == cs@.len(),
            cs@ == s@,
            0 <= i <= n,
            out@ == old(out)@ + cs@.take(i as int),
        decreases n - i,
    {
        out.push(cs[i]);
        proof {
            assert(old(out)@ + cs@.take(i + 1) =~= (old(out)@ + cs@.take(i as int)).push(
                cs@[i as int],
            ));
        }
        i += 1;
    }
    proof {
        assert(cs@.take(n as int) =~= cs@);
    }
}

fn push_quoted(out: &mut Vec<char>, s: &str)
    ensures
        final(out)@ == old(out)@ + quoted(s@),
{
    out.push('"');
    let cs = chars_of(s);
    let n = cs.len();
    let mut i: usize = 0;
    while i < n
        invariant
            n == cs@.len(),
            cs@ == s@,
            0 <= i <= n,
            out@ == old(out)@ + seq!['"'] + escape(cs@.take(i as int)),
        decreases n - i,
    {
        let c = cs[i];
        if c == '"' {
            out.push('\\');
            out.push('"');
        } else if c == '\\' {
            out.push('\\');
            out.push('\\');
        } else if c == '\n' {
            out.push('\\');
            out.push('n');
        } else if c == '\r' {
            out.push('\\');
            out.push('r');
        } else if c == '\t' {
            out.push('\\');
            out.push('t');
        } else if (c as u32) < 0x20 {
            out.push('\\');
            out.push('u');
            out.push('0');
            out.push('0');
            out.push(hex_digit_of((c as u32) / 16));
            out.push(hex_digit_of((c as u32) % 16));
        } else {
            out.push(c);
        }
        proof {
            assert(cs@.take(i + 1) =~= cs@.take(i as int) + seq![cs@[i as int]]);
            lemma_escape_concat(cs@.take(i as int), seq![cs@[i as int]]);
            assert(escape(seq![cs@[i as int]]) == esc_char(cs@[i as int]) + escape(
                seq![cs@[i as int]].drop_first(),
            ));
            assert(seq![cs@[i as int]].drop_first() =~= Seq::<char>::empty());
            assert(escape(seq![cs@[i as int]]) =~= esc_char(cs@[i as int]));
            assert(out@ =~= old(out)@ + seq!['"'] + escape(cs@.take(i + 1)));
        }
        i += 1;
    }
    out.push('"');
    proof {
        assert(cs@.take(n as int) =~= cs@);
        assert(out@ =~= old(out)@ + quoted(s@));
    }
}

/// Write an entry in its wire form, as `enc_entry` describes it.
pub fn encode_entry(item: &ClipboardItem) -> (r: String)
    ensures
        r@ == enc_entry(item@),
{
    let mut out: Vec<char> = Vec::new();
    push_str_chars(&mut out, "{\"id\":");
    push_quoted(&mut out, item.id.as_str());
    push_str_chars(&mut out, ",\"content\":");
    match &item.content {
        ClipboardContent::Text(t) => {
            push_str_chars(&mut out, "{\"type\":\"Text\",\"data\":");
            push_quoted(&mut out, t.as_str());
            push_str_chars(&mut out, "}");
        },
        ClipboardContent::Image { base64, width, height } => {
            push_str_chars(&mut out, "{\"type\":\"Image\",\"data\":{\"base64\":");
            push_quoted(&mut out, base64.as_str());
            push_str_chars(&mut out, ",\"width\":");
            push_str_chars(&mut out, fmt_u64(*width as u64).as_str());
            push_str_chars(&mut out, ",\"height\":");
            push_str_chars(&mut out, fmt_u64(*height as u64).as_str());
            push_str_chars(&mut out, "}}");
        },
    }
    push_str_chars(&mut out, ",\"timestamp\":");
    push_quoted(&mut out, item.timestamp.as_str());
    push_str_chars(&mut out, ",\"pinned\":");
    if item.pinned {
        push_str_chars(&mut out, "true");
    } else {
        push_str_chars(&mut out, "false");
    }
    push_str_chars(&mut out, ",\"preview\":");
    push_quoted(&mut out, item.preview.as_str());
    push_str_chars(&mut out, "}");
    proof {
        assert(out@ =~= enc_entry(item@));
    }
    string_of_chars(&out)
}

fn expect_at(v: &Vec<char>, pos: usize, lit: &str) -> (r: Option<usize>)
    requires
        pos <= v@.len(),
    ensures
        match r {
            Some(p) => pos <= p <= v@.len() && expect(v@.skip(pos as int), lit@) == Some(
                v@.skip(p as int),
            ),
            None => expect(v@.skip(pos as int), lit@) is None,
        },
{
    let lc = chars_of(lit);
    let m = lc.len();
    let n = v.len();
    if m > n - pos {
        return None;
    }
    let mut k: usize = 0;
    while k < m
        invariant
            m == lc@.len(),
            lc@ == lit@,
            n == v@.len(),
            pos + m <= n,
            0 <= k <= m,
            forall|j: int| 0 <= j < k ==> v@[pos + j] == lc@[j],
        decreases m - k,
    {
        if v[pos + k] != lc[k] {
            proof {
                let s = v@.skip(pos as int);
                assert(s[k as int] == v@[pos + k]);
                if m <= s.len() && s.take(m as int) == lit@ {
                    assert(s.take(m as int)[k as int] == lit@[k as int]);
                }
            }
            return None;
        }
        k += 1;
    }
    proof {
        let s = v@.skip(pos as int);
        assert(s.take(m as int) =~= lit@);
        assert(s.skip(m as int) =~= v@.skip(pos + m));
    }
    Some(pos + m)
}

/// Prepend `a` to the string part of a parse outcome.
spec fn opt_prepend(a: Seq<char>, o: Option<(Seq<char>, Seq<char>)>) -> Option<
    (Seq<char>, Seq<char>),
> {
    match o {
        Some(p) => Some((a + p.0, p.1)),
        None => None,
    }
}

proof fn lemma_opt_prepend_empty(o: Option<(Seq<char>, Seq<char>)>)
    ensures
        opt_prepend(Seq::<char>::empty(), o) == o,
{
    match o {
        Some(p) => {
            assert(Seq::<char>::empty() + p.0 =~= p.0);
        },
        None => {},
    }
}

proof fn lemma_opt_prepend_push(a: Seq<char>, c: char, o: Option<(Seq<char>, Seq<char>)>)
    ensures
        opt_prepend(a, opt_prepend(seq![c], o)) == opt_prepend(a.push(c), o),
{
    match o {
        Some(p) => {
            assert(a + (seq![c] + p.0) =~= a.push(c) + p.0);
        },
        None => {},
    }
}

fn unesc(c: char) -> (r: Option<char>)
    ensures
        r == unesc_char(c),
{
    if c == '"' {
        Some('"')
    } else if c == '\\' {
        Some('\\')
    } else if c == 'n' {
        Some('\n')
    } else if c == 'r' {
        Some('\r')
    } else if c == 't' {
        Some('\t')
    } else {
        None
    }
}

fn parse_string_at(v: &Vec<char>, pos: usize) -> (r: Option<(Vec<char>, usize)>)
    requires
        pos <= v@.len(),
    ensures
        match r {
            Some(p) => p.1 <= v@.len() && parse_quoted(v@.skip(pos as int)) == Some(
                (p.0@, v@.skip(p.1 as int)),
            ),
            None => parse_quoted(v@.skip(pos as int)) is None,
        },
{
    let n = v.len();
    if pos >= n {
        return None;
    }
    if v[pos] != '"' {
        proof {
            assert(v@.skip(pos as int)[0] == v@[pos as int]);
        }
        return None;
    }
    proof {
        assert(v@.skip(pos as int)[0] == '"');
        assert(v@.skip(pos as int).drop_first() =~= v@.skip(pos + 1));
    }
    let ghost body0 = v@.skip(pos + 1);
    let mut acc: Vec<char> = Vec::new();
    let mut i: usize = pos + 1;
    proof {
        lemma_opt_prepend_empty(parse_string_body(v@.skip(pos + 1)));
    }
    loop
        invariant
            n == v@.len(),
            pos + 1 <= i <= n,
            parse_string_body(body0) == opt_prepend(acc@, parse_string_body(v@.skip(i as int))),
            body0 == v@.skip(pos + 1),
            parse_quoted(v@.skip(pos as int)) == parse_string_body(body0),
        decreases n - i,
    {
        if i >= n {
            proof {
                assert(v@.skip(i as int).len() == 0);
            }
            return None;
        }
        let c = v[i];
        proof {
            assert(v@.skip(i as int)[0] == c);
        }
        if c == '"' {
            proof {
                assert(v@.skip(i as int).drop_first() =~= v@.skip(i + 1));
                assert(parse_string_body(v@.skip(i as int)) == Some(
                    (Seq::<char>::empty(), v@.skip(i + 1)),
                ));
                assert(acc@ + Seq::<char>::empty() =~= acc@);
            }
            return Some((acc, i + 1));
        } else if c == '\\' {
            if i + 1 >= n {
                proof {
                    assert(v@.skip(i as int).len() < 2);
                }
                return None;
            }
            let x = v[i + 1];
            proof {
                assert(v@.skip(i as int)[1] == x);
            }
            if x == 'u' {
                if n - i < 6 {
                    proof {
                        assert(v@.skip(i as int).len() < 6);
                    }
                    return None;
                }
                proof {
                    assert(v@.skip(i as int)[2] == v@[i + 2]);
                    assert(v@.skip(i as int)[3] == v@[i + 3]);
                    assert(v@.skip(i as int)[4] == v@[i + 4]);
                    assert(v@.skip(i as int)[5] == v@[i + 5]);
                }
                if v[i + 2] != '0' || v[i + 3] != '0' {
                    return None;
                }
                let h1 = hex_val_of(v[i + 4]);
                let h2 = hex_val_of(v[i + 5]);
                if !(h1 < 2 && h2 < 16) {
                    return None;
                }
                let ch = ((h1 * 16 + h2) as u8) as char;
                proof {
                    assert(v@.skip(i as int).skip(6) =~= v@.skip(i + 6));
                    lemma_opt_prepend_push(acc@, ch, parse_string_body(v@.skip(i + 6)));
                }
                acc.push(ch);
                i = i + 6;
            } else {
                match unesc(x) {
                    Some(ch) => {
                        proof {
                            assert(v@.skip(i as int).skip(2) =~= v@.skip(i + 2));
                            lemma_opt_prepend_push(acc@, ch, parse_string_body(v@.skip(i + 2)));
                        }
                        acc.push(ch);
                        i = i + 2;
                    },
                    None => {
                        return None;
                    },
                }
            }
        } else {
            proof {
                assert(v@.skip(i as int).drop_first() =~= v@.skip(i + 1));
                lemma_opt_prepend_push(acc@, c, parse_string_body(v@.skip(i + 1)));
            }
            acc.push(c);
            i = i + 1;
        }
    }
}

fn parse_number_at(v: &Vec<char>, pos: usize) -> (r: Option<(u64, usize)>)
    requires
        pos <= v@.len(),
    ensures
        match r {
            Some(p) => p.1 <= v@.len() && parse_number(v@.skip(pos as int)) == Some(
                (p.0, v@.skip(p.1 as int)),
            ),
            None => parse_number(v@.skip(pos as int)) is None,
        },
{
    let n = v.len();
    let mut j: usize = pos;
    let mut scanning = true;
    while scanning
        invariant
            n == v@.len(),
            pos <= j <= n,
            forall|k: int| pos <= k < j ==> is_digit_char(v@[k]),
            !scanning ==> (j == n || !is_digit_char(v@[j as int])),
        decreases n - j, (if scanning {
            1int
        } else {
            0int
        }),
    {
        if j < n {
            let u = v[j] as u32;
            if 48 <= u && u <= 57 {
                j += 1;
            } else {
                scanning = false;
            }
        } else {
            scanning = false;
        }
    }
    let ghost s = v@.skip(pos as int);
    let ghost run = (j - pos) as int;
    proof {
        let d = v@.subrange(pos as int, j as int);
        assert(s =~= d + v@.skip(j as int));
        assert forall|k: int| 0 <= k < d.len() implies is_digit_char(d[k]) by {
            assert(d[k] == v@[pos + k]);
        }
        if j < n {
            assert(v@.skip(j as int)[0] == v@[j as int]);
        }
        lemma_digit_run_of(d, v@.skip(j as int));
        assert(digit_run_len(s) == run);
        assert(s.take(run) =~= d);
        assert(s.skip(run) =~= v@.skip(j as int));
    }
    if j == pos {
        return None;
    }
    let mut acc: u64 = 0;
    let mut i: usize = pos;
    while i < j
        invariant
            n == v@.len(),
            pos <= i <= j <= n,
            s == v@.skip(pos as int),
            run == j - pos,
            digit_run_len(s) == run,
            s.take(run) == v@.subrange(pos as int, j as int),
            s.skip(run) == v@.skip(j as int),
            forall|k: int| pos <= k < j ==> is_digit_char(v@[k]),
            acc == dec_val(s.take(i - pos)),
            pos < j,
        decreases j - i,
    {
        let c = v[i];
        let u = c as u32;
        proof {
            assert(s[i - pos] == c);
            assert(is_digit_char(c));
        }
        let d: u64 = (u - 48) as u64;
        proof {
            assert(digit_val(c) == d);
            assert(s.take(i - pos + 1).drop_last() =~= s.take(i - pos));
            assert(s.take(i - pos + 1).last() == s[i - pos]);
        }
        if acc > (u64::MAX - d) / 10 {
            proof {
                assert(dec_val(s.take(i - pos + 1)) == acc * 10 + d);
                assert(acc * 10 + d > u64::MAX) by (nonlinear_arith)
                    requires
                        acc > (u64::MAX - d) / 10 && d < 10,
                ;
                lemma_dec_val_take_mono(s, i - pos + 1, run);
            }
            return None;
        }
        proof {
            assert(acc * 10 + d <= u64::MAX) by (nonlinear_arith)
                requires
                    acc <= (u64::MAX - d) / 10 && d < 10,
            ;
        }
        acc = acc * 10 + d;
        i += 1;
    }
    Some((acc, j))
}

fn parse_bool_at(v: &Vec<char>, pos: usize) -> (r: Option<(bool, usize)>)
    requires
        pos <= v@.len(),
    ensures
        match r {
            Some(p) => p.1 <= v@.len() && parse_bool(v@.skip(pos as int)) == Some(
                (p.0, v@.skip(p.1 as int)),
            ),
            None => parse_bool(v@.skip(pos as int)) is None,
        },
{
    match expect_at(v, pos, "true") {
        Some(p) => Some((true, p)),
        None => match expect_at(v, pos, "false") {
            Some(p) => Some((false, p)),
            None => None,
        },
    }
}

fn parse_content_at(v: &Vec<char>, pos: usize) -> (r: Option<(ClipboardContent, usize)>)
    requires
        pos <= v@.len(),
    ensures
        match r {
            Some(p) => ({
                &&& p.1 <= v@.len()
                &&& parse_content(v@.skip(pos as int)) matches Some(q)
                &&& q.0 == p.0@
                &&& q.1 == v@.skip(p.1 as int)
            }),
            None => parse_content(v@.skip(pos as int)) is None,
        },
{
    match expect_at(v, pos, "{\"type\":\"Text\",\"data\":") {
        Some(s1) => {
            match parse_string_at(v, s1) {
                Some((t, s2)) => {
                    match expect_at(v, s2, "}") {
                        Some(s3) => Some((ClipboardContent::Text(string_of_chars(&t)), s3)),
                        None => None,
                    }
                },
                None => None,
            }
        },
        None => {
            match expect_at(v, pos, "{\"type\":\"Image\",\"data\":{\"base64\":") {
                Some(s1) => {
                    match parse_string_at(v, s1) {
                        Some((b64, s2)) => {
                            match expect_at(v, s2, ",\"width\":") {
                                Some(s3) => {
                                    match parse_number_at(v, s3) {
                                        Some((w, s4)) => {
                                            if w > (u32::MAX as u64) {
                                                return None;
                                            }
                                            match expect_at(v, s4, ",\"height\":") {
                                                Some(s5) => {
                                                    match parse_number_at(v, s5) {
                                                        Some((h, s6)) => {
                                                            if h > (u32::MAX as u64) {
                                                                return None;
                                                            }
                                                            match expect_at(v, s6, "}}") {
                                                                Some(s7) => Some(
                                                                    (
                                                                        ClipboardContent::Image {
                                                                            base64:
                                                                                string_of_chars(
                                                                                &b64,
                                                                            ),
                                                                            width: w as u32,
                                                                            height: h as u32,
                                                                        },
                                                                        s7,
                                                                    ),
                                                                ),
                                                                None => None,
                                                            }
                                                        },
                                                        None => None,
                                                    }
                                                },
                                                None => None,
                                            }
                                        },
                                        None => None,
                                    }
                                },
                                None => None,
                            }
                        },
                        None => None,
                    }
                },
                None => None,
            }
        },
    }
}

fn parse_entry_at(v: &Vec<char>, pos: usize) -> (r: Option<(ClipboardItem, usize)>)
    requires
        pos <= v@.len(),
    ensures
        match r {
            Some(p) => ({
                &&& p.1 <= v@.len()
                &&& parse_entry(v@.skip(pos as int)) matches Some(q)
                &&& q.0 == p.0@
                &&& q.1 == v@.skip(p.1 as int)
            }),
            None => parse_entry(v@.skip(pos as int)) is None,
        },
{
    match expect_at(v, pos, "{\"id\":") {
        Some(s1) => {
            match parse_string_at(v, s1) {
                Some((id, s2)) => {
                    match expect_at(v, s2, ",\"content\":") {
                        Some(s3) => {
                            match parse_content_at(v, s3) {
                                Some((content, s4)) => {
                                    match expect_at(v, s4, ",\"timestamp\":") {
                                        Some(s5) => {
                                            match parse_string_at(v, s5) {
                                                Some((ts, s6)) => {
                                                    match expect_at(v, s6, ",\"pinned\":") {
                                                        Some(s7) => {
                                                            match parse_bool_at(v, s7) {
                                                                Some((pinned, s8)) => {
                                                                    match expect_at(
                                                                        v,
                                                                        s8,
                                                                        ",\"preview\":",
                                                                    ) {
                                                                        Some(s9) => {
                                                                            match parse_string_at(
                                                                                v,
                                                                                s9,
                                                                            ) {
                                                                                Some(
                                                                                    (pv, s10),
                                                                                ) => {
                                                                                    match expect_at(
                                                                                        v,
                                                                                        s10,
                                                                                        "}",
                                                                                    ) {
                                                                                        Some(
                                                                                            s11,
                                                                                        ) => Some(
                                                                                            (
                                                                                                ClipboardItem {
                                                                                                    id:
                                                                                                        string_of_chars(
                                                                                                        &id,
                                                                                                    ),
                                                                                                    content,
                                                                                                    timestamp:
                                                                                                        string_of_chars(
                                                                                                        &ts,
                                                                                                    ),
                                                                                                    pinned,
                                                                                                    preview:
                                                                                                        string_of_chars(
                                                                                                        &pv,
                                                                                                    ),
                                                                                                },
                                                                                                s11,
                                                                                            ),
                                                                                        ),
                                                                                        None
                                                                                            => None,
                                                                                    }
                                                                                },
                                                                                None => None,
                                                                            }
                                                                        },
                                                                        None => None,
                                                                    }
                                                                },
                                                                None => None,
                                                            }
                                                        },
                                                        None => None,
                                                    }
                                                },
                                                None => None,
                                            }
                                        },
                                        None => None,
                                    }
                                },
                                None => None,
                            }
                        },
                        None => None,
                    }
                },
                None => None,
            }
        },
        None => None,
    }
}

/// Read an entry back from its wire form; the whole string must be one
/// encoded entry, as `decode_spec` describes.
pub fn decode_entry(s: &str) -> (r: Option<ClipboardItem>)
    ensures
        match decode_spec(s@) {
            Some(e) => r matches Some(it) && it@ == e,
            None => r is None,
        },
{
    let cs = chars_of(s);
    proof {
        assert(cs@.skip(0) =~= s@);
    }
    match parse_entry_at(&cs, 0) {
        Some((item, p)) => {
            if p == cs.len() {
                proof {
                    assert(cs@.skip(p as int).len() == 0);
                }
                Some(item)
            } else {
                proof {
                    assert(cs@.skip(p as int).len() > 0);
                }
                None
            }
        },
        None => None,
    }
}

} // verus!

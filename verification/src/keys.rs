//! The key vocabulary: names of primary keys and their virtual-key codes.
//!
//! Letters and digits share their ASCII values (`VK_A` is 0x41), so they need no
//! table; F1 to F12 run from 0x70; the rest are named one by one.

use vstd::prelude::*;
use crate::text::{
    all_digits, chars_of, dec_digits, dec_value, eq_lit, hex_digit, hex_digit_char, hex_digits,
    is_ascii_digit, is_ascii_lower, is_ascii_upper, lower_char, parse_u32, push_char, push_hex,
    to_lower, to_upper, upper_char,
};

verus! {

/// The key that a name from the fixed table stands for.
pub open spec fn named_key_code(n: Seq<char>) -> Option<u32> {
    if n == "space"@ {
        Some(0x20u32)
    } else if n == "tab"@ {
        Some(0x09u32)
    } else if n == "insert"@ {
        Some(0x2Du32)
    } else if n == "delete"@ || n == "del"@ {
        Some(0x2Eu32)
    } else if n == "home"@ {
        Some(0x24u32)
    } else if n == "end"@ {
        Some(0x23u32)
    } else if n == "pageup"@ {
        Some(0x21u32)
    } else if n == "pagedown"@ {
        Some(0x22u32)
    } else if n == "backquote"@ {
        Some(0xC0u32)
    } else if n == "minus"@ {
        Some(0xBDu32)
    } else if n == "equals"@ {
        Some(0xBBu32)
    } else if n == "comma"@ {
        Some(0xBCu32)
    } else if n == "period"@ {
        Some(0xBEu32)
    } else if n == "slash"@ {
        Some(0xBFu32)
    } else if n == "semicolon"@ {
        Some(0xBAu32)
    } else if n == "quote"@ {
        Some(0xDEu32)
    } else if n == "bracketleft"@ {
        Some(0xDBu32)
    } else if n == "bracketright"@ {
        Some(0xDDu32)
    } else if n == "backslash"@ {
        Some(0xDCu32)
    } else {
        None
    }
}

/// The name from the fixed table that a key is described by.
pub open spec fn named_key_name(vk: u32) -> Option<Seq<char>> {
    if vk == 0x20 {
        Some("space"@)
    } else if vk == 0x09 {
        Some("tab"@)
    } else if vk == 0x2D {
        Some("insert"@)
    } else if vk == 0x2E {
        Some("delete"@)
    } else if vk == 0x24 {
        Some("home"@)
    } else if vk == 0x23 {
        Some("end"@)
    } else if vk == 0x21 {
        Some("pageup"@)
    } else if vk == 0x22 {
        Some("pagedown"@)
    } else if vk == 0xC0 {
        Some("backquote"@)
    } else if vk == 0xBD {
        Some("minus"@)
    } else if vk == 0xBB {
        Some("equals"@)
    } else if vk == 0xBC {
        Some("comma"@)
    } else if vk == 0xBE {
        Some("period"@)
    } else if vk == 0xBF {
        Some("slash"@)
    } else if vk == 0xBA {
        Some("semicolon"@)
    } else if vk == 0xDE {
        Some("quote"@)
    } else if vk == 0xDB {
        Some("bracketleft"@)
    } else if vk == 0xDD {
        Some("bracketright"@)
    } else if vk == 0xDC {
        Some("backslash"@)
    } else {
        None
    }
}

/// The F-key number that the text after an `f` spells: what `str::parse::<u32>`
/// reads there, when it is from 1 to 12.
pub open spec fn fkey_number_of(rest: Seq<char>) -> Option<nat> {
    match parse_u32(rest) {
        Some(v) => if 1 <= v <= 12 {
            Some(v)
        } else {
            None
        },
        None => None,
    }
}

/// The virtual-key code of a single token of chord text, if it names a key:
/// one ASCII letter (either case) or digit, `f1` to `f12` (the number as
/// `str::parse::<u32>` reads it), or a name from the fixed table.
pub open spec fn key_code_of(n: Seq<char>) -> Option<u32> {
    if n.len() == 1 && (is_ascii_upper(to_upper(n[0])) || is_ascii_digit(to_upper(n[0]))) {
        Some(to_upper(n[0]) as u32)
    } else if n.len() > 0 && n[0] == 'f' && fkey_number_of(n.drop_first()) is Some {
        Some((0x70 + fkey_number_of(n.drop_first())->0 - 1) as u32)
    } else {
        named_key_code(n)
    }
}

/// `n` in hexadecimal, lower case, at least two digits wide.
pub open spec fn hex2(n: u32) -> Seq<char> {
    if n < 16 {
        seq!['0'] + hex_digits(n as nat)
    } else {
        hex_digits(n as nat)
    }
}

/// The name that a key is described by: a lower-case letter or digit, `f1` to
/// `f12`, a name from the fixed table, or else `vk` and the code in hexadecimal.
pub open spec fn key_name_of(vk: u32) -> Seq<char> {
    let c = (vk as u8) as char;
    if vk < 256 && (is_ascii_upper(c) || is_ascii_digit(c)) {
        seq![to_lower(c)]
    } else if 0x70 <= vk <= 0x7B {
        seq!['f'] + dec_digits((vk - 0x70 + 1) as nat)
    } else {
        match named_key_name(vk) {
            Some(name) => name,
            None => seq!['v', 'k'] + hex2(vk),
        }
    }
}

fn named_key_code_exec(n: &[char]) -> (r: Option<u32>)
    ensures
        r == named_key_code(n@),
{
    if eq_lit(n, "space") {
        Some(0x20)
    } else if eq_lit(n, "tab") {
        Some(0x09)
    } else if eq_lit(n, "insert") {
        Some(0x2D)
    } else if eq_lit(n, "delete") || eq_lit(n, "del") {
        Some(0x2E)
    } else if eq_lit(n, "home") {
        Some(0x24)
    } else if eq_lit(n, "end") {
        Some(0x23)
    } else if eq_lit(n, "pageup") {
        Some(0x21)
    } else if eq_lit(n, "pagedown") {
        Some(0x22)
    } else if eq_lit(n, "backquote") {
        Some(0xC0)
    } else if eq_lit(n, "minus") {
        Some(0xBD)
    } else if eq_lit(n, "equals") {
        Some(0xBB)
    } else if eq_lit(n, "comma") {
        Some(0xBC)
    } else if eq_lit(n, "period") {
        Some(0xBE)
    } else if eq_lit(n, "slash") {
        Some(0xBF)
    } else if eq_lit(n, "semicolon") {
        Some(0xBA)
    } else if eq_lit(n, "quote") {
        Some(0xDE)
    } else if eq_lit(n, "bracketleft") {
        Some(0xDB)
    } else if eq_lit(n, "bracketright") {
        Some(0xDD)
    } else if eq_lit(n, "backslash") {
        Some(0xDC)
    } else {
        None
    }
}

fn named_key_name_exec(vk: u32) -> (r: Option<&'static str>)
    ensures
        r is None <==> named_key_name(vk) is None,
        r matches Some(name) ==> named_key_name(vk) == Some(name@),
{
    if vk == 0x20 {
        Some("space")
    } else if vk == 0x09 {
        Some("tab")
    } else if vk == 0x2D {
        Some("insert")
    } else if vk == 0x2E {
        Some("delete")
    } else if vk == 0x24 {
        Some("home")
    } else if vk == 0x23 {
        Some("end")
    } else if vk == 0x21 {
        Some("pageup")
    } else if vk == 0x22 {
        Some("pagedown")
    } else if vk == 0xC0 {
        Some("backquote")
    } else if vk == 0xBD {
        Some("minus")
    } else if vk == 0xBB {
        Some("equals")
    } else if vk == 0xBC {
        Some("comma")
    } else if vk == 0xBE {
        Some("period")
    } else if vk == 0xBF {
        Some("slash")
    } else if vk == 0xBA {
        Some("semicolon")
    } else if vk == 0xDE {
        Some("quote")
    } else if vk == 0xDB {
        Some("bracketleft")
    } else if vk == 0xDD {
        Some("bracketright")
    } else if vk == 0xDC {
        Some("backslash")
    } else {
        None
    }
}

/// The F-key number after the leading `f` of `n`, when `str::parse::<u32>` reads the
/// rest as a number from 1 to 12.
fn fkey_number(n: &[char]) -> (r: Option<u32>)
    requires
        n@.len() >= 1,
    ensures
        r is Some <==> fkey_number_of(n@.drop_first()) is Some,
        r matches Some(v) ==> fkey_number_of(n@.drop_first()) == Some(v as nat),
{
    let len = n.len();
    let mut i: usize = 1;
    if i < len && n[1] == '+' {
        i = 2;
    }
    let start = i;
    proof {
        let s = n@.drop_first();
        let body = if s.len() > 0 && s[0] == '+' {
            s.drop_first()
        } else {
            s
        };
        assert(body =~= n@.subrange(start as int, len as int));
    }
    if start == len {
        return None;
    }
    let mut value: u32 = 0;
    while i < len
        invariant
            1 <= start <= i <= len == n@.len(),
            start < len,
            ({
                let s = n@.drop_first();
                if s.len() > 0 && s[0] == '+' {
                    s.drop_first()
                } else {
                    s
                }
            }) == n@.subrange(start as int, len as int),
            all_digits(n@.subrange(start as int, i as int)),
            value <= 129,
            dec_value(n@.subrange(start as int, i as int)) <= 12 ==> value == dec_value(
                n@.subrange(start as int, i as int),
            ),
            dec_value(n@.subrange(start as int, i as int)) > 12 ==> value > 12,
        decreases len - i,
    {
        let c = n[i];
        if !('0' <= c && c <= '9') {
            assert(!all_digits(n@.subrange(start as int, len as int))) by {
                assert(n@.subrange(start as int, len as int)[i - start] == c);
            }
            return None;
        }
        let d: u32 = (c as u32) - 48;
        proof {
            let pre = n@.subrange(start as int, i as int);
            let post = n@.subrange(start as int, i + 1);
            assert(post.drop_last() =~= pre);
            assert(post.last() == c);
            assert(dec_value(post) == dec_value(pre) * 10 + d);
            assert(all_digits(post));
        }
        if value <= 12 {
            value = value * 10 + d;
        }
        i = i + 1;
    }
    if 1 <= value && value <= 12 {
        Some(value)
    } else {
        None
    }
}

/// The virtual-key code of a token, held as characters.
pub fn key_code_chars(n: &[char]) -> (r: Option<u32>)
    ensures
        r == key_code_of(n@),
{
    if n.len() == 1 {
        let c = upper_char(n[0]);
        if ('A' <= c && c <= 'Z') || ('0' <= c && c <= '9') {
            return Some(c as u32);
        }
    }
    if n.len() > 0 && n[0] == 'f' {
        if let Some(v) = fkey_number(n) {
            return Some(0x70 + v - 1);
        }
    }
    named_key_code_exec(n)
}

/// Maps a single token from a chord string to a virtual-key code.
pub fn key_code(name: &str) -> (r: Option<u32>)
    ensures
        r == key_code_of(name@),
{
    let chars = chars_of(name);
    key_code_chars(chars.as_slice())
}

/// The name that a key is described by, in the vocabulary that parsing accepts.
pub fn key_name(vk: u32) -> (s: String)
    ensures
        s@ == key_name_of(vk),
{
    if vk < 256 {
        let c = (vk as u8) as char;
        if ('A' <= c && c <= 'Z') || ('0' <= c && c <= '9') {
            let mut s = String::new();
            push_char(&mut s, lower_char(c));
            assert(s@ =~= key_name_of(vk));
            return s;
        }
    }
    if 0x70 <= vk && vk <= 0x7B {
        let n = vk - 0x70 + 1;
        let mut s = String::new();
        push_char(&mut s, 'f');
        if n >= 10 {
            push_char(&mut s, hex_digit_char(1));
            push_char(&mut s, hex_digit_char(n - 10));
        } else {
            push_char(&mut s, hex_digit_char(n));
        }
        proof {
            reveal_with_fuel(dec_digits, 2);
        }
        assert(s@ =~= key_name_of(vk));
        return s;
    }
    match named_key_name_exec(vk) {
        Some(name) => name.to_owned(),
        None => {
            let mut s = String::new();
            push_char(&mut s, 'v');
            push_char(&mut s, 'k');
            if vk < 16 {
                push_char(&mut s, '0');
            }
            push_hex(&mut s, vk);
            assert(s@ =~= key_name_of(vk));
            s
        },
    }
}

/// The keys that the vocabulary names: digits, letters, F1 to F12 and the keys of
/// the fixed table.
pub open spec fn in_vocabulary(vk: u32) -> bool {
    ||| 0x30 <= vk <= 0x39
    ||| 0x41 <= vk <= 0x5A
    ||| 0x70 <= vk <= 0x7B
    ||| named_key_name(vk) is Some
}

proof fn lemma_named_round_trips(vk: u32)
    requires
        named_key_name(vk) is Some,
    ensures
        key_name_of(vk) == named_key_name(vk)->0,
        key_name_of(vk).len() >= 3,
        key_name_of(vk)[0] != 'f',
        named_key_code(key_name_of(vk)) == Some(vk),
{
    reveal_strlit("space");
    reveal_strlit("tab");
    reveal_strlit("insert");
    reveal_strlit("delete");
    reveal_strlit("del");
    reveal_strlit("home");
    reveal_strlit("end");
    reveal_strlit("pageup");
    reveal_strlit("pagedown");
    reveal_strlit("backquote");
    reveal_strlit("minus");
    reveal_strlit("equals");
    reveal_strlit("comma");
    reveal_strlit("period");
    reveal_strlit("slash");
    reveal_strlit("semicolon");
    reveal_strlit("quote");
    reveal_strlit("bracketleft");
    reveal_strlit("bracketright");
    reveal_strlit("backslash");
    if vk == 0x20 {
        assert(named_key_code("space"@) == Some(0x20u32));
    } else if vk == 0x9 {
        assert("tab"@.len() != "space"@.len());
        assert(named_key_code("tab"@) == Some(0x9u32));
    } else if vk == 0x2D {
        assert("insert"@.len() != "space"@.len());
        assert("insert"@.len() != "tab"@.len());
        assert(named_key_code("insert"@) == Some(0x2Du32));
    } else if vk == 0x2E {
        assert("delete"@[0] != "insert"@[0]);
        assert("delete"@.len() != "space"@.len());
        assert("delete"@.len() != "tab"@.len());
        assert(named_key_code("delete"@) == Some(0x2Eu32));
    } else if vk == 0x24 {
        assert("home"@.len() != "space"@.len());
        assert("home"@.len() != "tab"@.len());
        assert("home"@.len() != "insert"@.len());
        assert("home"@.len() != "delete"@.len());
        assert("home"@.len() != "del"@.len());
        assert(named_key_code("home"@) == Some(0x24u32));
    } else if vk == 0x23 {
        assert("end"@[0] != "tab"@[0]);
        assert("end"@[0] != "del"@[0]);
        assert("end"@.len() != "space"@.len());
        assert("end"@.len() != "insert"@.len());
        assert("end"@.len() != "delete"@.len());
        assert("end"@.len() != "home"@.len());
        assert(named_key_code("end"@) == Some(0x23u32));
    } else if vk == 0x21 {
        assert("pageup"@[0] != "insert"@[0]);
        assert("pageup"@[0] != "delete"@[0]);
        assert("pageup"@.len() != "space"@.len());
        assert("pageup"@.len() != "tab"@.len());
        assert("pageup"@.len() != "del"@.len());
        assert("pageup"@.len() != "home"@.len());
        assert("pageup"@.len() != "end"@.len());
        assert(named_key_code("pageup"@) == Some(0x21u32));
    } else if vk == 0x22 {
        assert("pagedown"@.len() != "space"@.len());
        assert("pagedown"@.len() != "tab"@.len());
        assert("pagedown"@.len() != "insert"@.len());
        assert("pagedown"@.len() != "delete"@.len());
        assert("pagedown"@.len() != "del"@.len());
        assert("pagedown"@.len() != "home"@.len());
        assert("pagedown"@.len() != "end"@.len());
        assert("pagedown"@.len() != "pageup"@.len());
        assert(named_key_code("pagedown"@) == Some(0x22u32));
    } else if vk == 0xC0 {
        assert("backquote"@.len() != "space"@.len());
        assert("backquote"@.len() != "tab"@.len());
        assert("backquote"@.len() != "insert"@.len());
        assert("backquote"@.len() != "delete"@.len());
        assert("backquote"@.len() != "del"@.len());
        assert("backquote"@.len() != "home"@.len());
        assert("backquote"@.len() != "end"@.len());
        assert("backquote"@.len() != "pageup"@.len());
        assert("backquote"@.len() != "pagedown"@.len());
        assert(named_key_code("backquote"@) == Some(0xC0u32));
    } else if vk == 0xBD {
        assert("minus"@[0] != "space"@[0]);
        assert("minus"@.len() != "tab"@.len());
        assert("minus"@.len() != "insert"@.len());
        assert("minus"@.len() != "delete"@.len());
        assert("minus"@.len() != "del"@.len());
        assert("minus"@.len() != "home"@.len());
        assert("minus"@.len() != "end"@.len());
        assert("minus"@.len() != "pageup"@.len());
        assert("minus"@.len() != "pagedown"@.len());
        assert("minus"@.len() != "backquote"@.len());
        assert(named_key_code("minus"@) == Some(0xBDu32));
    } else if vk == 0xBB {
        assert("equals"@[0] != "insert"@[0]);
        assert("equals"@[0] != "delete"@[0]);
        assert("equals"@[0] != "pageup"@[0]);
        assert("equals"@.len() != "space"@.len());
        assert("equals"@.len() != "tab"@.len());
        assert("equals"@.len() != "del"@.len());
        assert("equals"@.len() != "home"@.len());
        assert("equals"@.len() != "end"@.len());
        assert("equals"@.len() != "pagedown"@.len());
        assert("equals"@.len() != "backquote"@.len());
        assert("equals"@.len() != "minus"@.len());
        assert(named_key_code("equals"@) == Some(0xBBu32));
    } else if vk == 0xBC {
        assert("comma"@[0] != "space"@[0]);
        assert("comma"@[0] != "minus"@[0]);
        assert("comma"@.len() != "tab"@.len());
        assert("comma"@.len() != "insert"@.len());
        assert("comma"@.len() != "delete"@.len());
        assert("comma"@.len() != "del"@.len());
        assert("comma"@.len() != "home"@.len());
        assert("comma"@.len() != "end"@.len());
        assert("comma"@.len() != "pageup"@.len());
        assert("comma"@.len() != "pagedown"@.len());
        assert("comma"@.len() != "backquote"@.len());
        assert("comma"@.len() != "equals"@.len());
        assert(named_key_code("comma"@) == Some(0xBCu32));
    } else if vk == 0xBE {
        assert("period"@[0] != "insert"@[0]);
        assert("period"@[0] != "delete"@[0]);
        assert("period"@[1] != "pageup"@[1]);
        assert("period"@[0] != "equals"@[0]);
        assert("period"@.len() != "space"@.len());
        assert("period"@.len() != "tab"@.len());
        assert("period"@.len() != "del"@.len());
        assert("period"@.len() != "home"@.len());
        assert("period"@.len() != "end"@.len());
        assert("period"@.len() != "pagedown"@.len());
        assert("period"@.len() != "backquote"@.len());
        assert("period"@.len() != "minus"@.len());
        assert("period"@.len() != "comma"@.len());
        assert(named_key_code("period"@) == Some(0xBEu32));
    } else if vk == 0xBF {
        assert("slash"@[1] != "space"@[1]);
        assert("slash"@[0] != "minus"@[0]);
        assert("slash"@[0] != "comma"@[0]);
        assert("slash"@.len() != "tab"@.len());
        assert("slash"@.len() != "insert"@.len());
        assert("slash"@.len() != "delete"@.len());
        assert("slash"@.len() != "del"@.len());
        assert("slash"@.len() != "home"@.len());
        assert("slash"@.len() != "end"@.len());
        assert("slash"@.len() != "pageup"@.len());
        assert("slash"@.len() != "pagedown"@.len());
        assert("slash"@.len() != "backquote"@.len());
        assert("slash"@.len() != "equals"@.len());
        assert("slash"@.len() != "period"@.len());
        assert(named_key_code("slash"@) == Some(0xBFu32));
    } else if vk == 0xBA {
        assert("semicolon"@[0] != "backquote"@[0]);
        assert("semicolon"@.len() != "space"@.len());
        assert("semicolon"@.len() != "tab"@.len());
        assert("semicolon"@.len() != "insert"@.len());
        assert("semicolon"@.len() != "delete"@.len());
        assert("semicolon"@.len() != "del"@.len());
        assert("semicolon"@.len() != "home"@.len());
        assert("semicolon"@.len() != "end"@.len());
        assert("semicolon"@.len() != "pageup"@.len());
        assert("semicolon"@.len() != "pagedown"@.len());
        assert("semicolon"@.len() != "minus"@.len());
        assert("semicolon"@.len() != "equals"@.len());
        assert("semicolon"@.len() != "comma"@.len());
        assert("semicolon"@.len() != "period"@.len());
        assert("semicolon"@.len() != "slash"@.len());
        assert(named_key_code("semicolon"@) == Some(0xBAu32));
    } else if vk == 0xDE {
        assert("quote"@[0] != "space"@[0]);
        assert("quote"@[0] != "minus"@[0]);
        assert("quote"@[0] != "comma"@[0]);
        assert("quote"@[0] != "slash"@[0]);
        assert("quote"@.len() != "tab"@.len());
        assert("quote"@.len() != "insert"@.len());
        assert("quote"@.len() != "delete"@.len());
        assert("quote"@.len() != "del"@.len());
        assert("quote"@.len() != "home"@.len());
        assert("quote"@.len() != "end"@.len());
        assert("quote"@.len() != "pageup"@.len());
        assert("quote"@.len() != "pagedown"@.len());
        assert("quote"@.len() != "backquote"@.len());
        assert("quote"@.len() != "equals"@.len());
        assert("quote"@.len() != "period"@.len());
        assert("quote"@.len() != "semicolon"@.len());
        assert(named_key_code("quote"@) == Some(0xDEu32));
    } else if vk == 0xDB {
        assert("bracketleft"@.len() != "space"@.len());
        assert("bracketleft"@.len() != "tab"@.len());
        assert("bracketleft"@.len() != "insert"@.len());
        assert("bracketleft"@.len() != "delete"@.len());
        assert("bracketleft"@.len() != "del"@.len());
        assert("bracketleft"@.len() != "home"@.len());
        assert("bracketleft"@.len() != "end"@.len());
        assert("bracketleft"@.len() != "pageup"@.len());
        assert("bracketleft"@.len() != "pagedown"@.len());
        assert("bracketleft"@.len() != "backquote"@.len());
        assert("bracketleft"@.len() != "minus"@.len());
        assert("bracketleft"@.len() != "equals"@.len());
        assert("bracketleft"@.len() != "comma"@.len());
        assert("bracketleft"@.len() != "period"@.len());
        assert("bracketleft"@.len() != "slash"@.len());
        assert("bracketleft"@.len() != "semicolon"@.len());
        assert("bracketleft"@.len() != "quote"@.len());
        assert(named_key_code("bracketleft"@) == Some(0xDBu32));
    } else if vk == 0xDD {
        assert("bracketright"@.len() != "space"@.len());
        assert("bracketright"@.len() != "tab"@.len());
        assert("bracketright"@.len() != "insert"@.len());
        assert("bracketright"@.len() != "delete"@.len());
        assert("bracketright"@.len() != "del"@.len());
        assert("bracketright"@.len() != "home"@.len());
        assert("bracketright"@.len() != "end"@.len());
        assert("bracketright"@.len() != "pageup"@.len());
        assert("bracketright"@.len() != "pagedown"@.len());
        assert("bracketright"@.len() != "backquote"@.len());
        assert("bracketright"@.len() != "minus"@.len());
        assert("bracketright"@.len() != "equals"@.len());
        assert("bracketright"@.len() != "comma"@.len());
        assert("bracketright"@.len() != "period"@.len());
        assert("bracketright"@.len() != "slash"@.len());
        assert("bracketright"@.len() != "semicolon"@.len());
        assert("bracketright"@.len() != "quote"@.len());
        assert("bracketright"@.len() != "bracketleft"@.len());
        assert(named_key_code("bracketright"@) == Some(0xDDu32));
    } else if vk == 0xDC {
        assert("backslash"@[4] != "backquote"@[4]);
        assert("backslash"@[0] != "semicolon"@[0]);
        assert("backslash"@.len() != "space"@.len());
        assert("backslash"@.len() != "tab"@.len());
        assert("backslash"@.len() != "insert"@.len());
        assert("backslash"@.len() != "delete"@.len());
        assert("backslash"@.len() != "del"@.len());
        assert("backslash"@.len() != "home"@.len());
        assert("backslash"@.len() != "end"@.len());
        assert("backslash"@.len() != "pageup"@.len());
        assert("backslash"@.len() != "pagedown"@.len());
        assert("backslash"@.len() != "minus"@.len());
        assert("backslash"@.len() != "equals"@.len());
        assert("backslash"@.len() != "comma"@.len());
        assert("backslash"@.len() != "period"@.len());
        assert("backslash"@.len() != "slash"@.len());
        assert("backslash"@.len() != "quote"@.len());
        assert("backslash"@.len() != "bracketleft"@.len());
        assert("backslash"@.len() != "bracketright"@.len());
        assert(named_key_code("backslash"@) == Some(0xDCu32));
    }
}

/// The reserved words of chord text: `none` and the modifier names.
pub open spec fn is_reserved_word(t: Seq<char>) -> bool {
    ||| t == "none"@
    ||| t == "ctrl"@
    ||| t == "control"@
    ||| t == "shift"@
    ||| t == "alt"@
    ||| t == "menu"@
}

/// A name of the vocabulary is a non-empty run of lower-case letters and digits,
/// and no reserved word.
pub proof fn lemma_name_shape(vk: u32)
    requires
        in_vocabulary(vk),
    ensures
        key_name_of(vk).len() >= 1,
        forall|i: int|
            0 <= i < key_name_of(vk).len() ==> is_ascii_lower(#[trigger] key_name_of(vk)[i])
                || is_ascii_digit(key_name_of(vk)[i]),
        !is_reserved_word(key_name_of(vk)),
{
    let n = key_name_of(vk);
    reveal_strlit("space");
    reveal_strlit("tab");
    reveal_strlit("insert");
    reveal_strlit("delete");
    reveal_strlit("home");
    reveal_strlit("end");
    reveal_strlit("pageup");
    reveal_strlit("pagedown");
    reveal_strlit("backquote");
    reveal_strlit("minus");
    reveal_strlit("equals");
    reveal_strlit("comma");
    reveal_strlit("period");
    reveal_strlit("slash");
    reveal_strlit("semicolon");
    reveal_strlit("quote");
    reveal_strlit("bracketleft");
    reveal_strlit("bracketright");
    reveal_strlit("backslash");
    reveal_strlit("none");
    reveal_strlit("ctrl");
    reveal_strlit("control");
    reveal_strlit("shift");
    reveal_strlit("alt");
    reveal_strlit("menu");
    if 0x70 <= vk <= 0x7B {
        let k = (vk - 0x70 + 1) as nat;
        reveal_with_fuel(dec_digits, 2);
        assert(forall|i: int|
            0 <= i < n.len() ==> is_ascii_lower(#[trigger] n[i]) || is_ascii_digit(n[i])) by {
            if k >= 10 {
                assert(n =~= seq!['f', hex_digit(1), hex_digit((k - 10) as nat)]);
            } else {
                assert(n =~= seq!['f', hex_digit(k)]);
            }
        }
        assert(n[0] == 'f');
    } else if 0x30 <= vk <= 0x39 || 0x41 <= vk <= 0x5A {
        assert(n.len() == 1);
    } else {
        if vk == 0x20 {
            assert("space"@.len() != "none"@.len());
            assert("space"@.len() != "ctrl"@.len());
            assert("space"@.len() != "control"@.len());
            assert("space"@[1] != "shift"@[1]);
            assert("space"@.len() != "alt"@.len());
            assert("space"@.len() != "menu"@.len());
        } else if vk == 0x9 {
            assert("tab"@.len() != "none"@.len());
            assert("tab"@.len() != "ctrl"@.len());
            assert("tab"@.len() != "control"@.len());
            assert("tab"@.len() != "shift"@.len());
            assert("tab"@[0] != "alt"@[0]);
            assert("tab"@.len() != "menu"@.len());
        } else if vk == 0x2D {
            assert("insert"@.len() != "none"@.len());
            assert("insert"@.len() != "ctrl"@.len());
            assert("insert"@.len() != "control"@.len());
            assert("insert"@.len() != "shift"@.len());
            assert("insert"@.len() != "alt"@.len());
            assert("insert"@.len() != "menu"@.len());
        } else if vk == 0x2E {
            assert("delete"@.len() != "none"@.len());
            assert("delete"@.len() != "ctrl"@.len());
            assert("delete"@.len() != "control"@.len());
            assert("delete"@.len() != "shift"@.len());
            assert("delete"@.len() != "alt"@.len());
            assert("delete"@.len() != "menu"@.len());
        } else if vk == 0x24 {
            assert("home"@[0] != "none"@[0]);
            assert("home"@[0] != "ctrl"@[0]);
            assert("home"@.len() != "control"@.len());
            assert("home"@.len() != "shift"@.len());
            assert("home"@.len() != "alt"@.len());
            assert("home"@[0] != "menu"@[0]);
        } else if vk == 0x23 {
            assert("end"@.len() != "none"@.len());
            assert("end"@.len() != "ctrl"@.len());
            assert("end"@.len() != "control"@.len());
            assert("end"@.len() != "shift"@.len());
            assert("end"@[0] != "alt"@[0]);
            assert("end"@.len() != "menu"@.len());
        } else if vk == 0x21 {
            assert("pageup"@.len() != "none"@.len());
            assert("pageup"@.len() != "ctrl"@.len());
            assert("pageup"@.len() != "control"@.len());
            assert("pageup"@.len() != "shift"@.len());
            assert("pageup"@.len() != "alt"@.len());
            assert("pageup"@.len() != "menu"@.len());
        } else if vk == 0x22 {
            assert("pagedown"@.len() != "none"@.len());
            assert("pagedown"@.len() != "ctrl"@.len());
            assert("pagedown"@.len() != "control"@.len());
            assert("pagedown"@.len() != "shift"@.len());
            assert("pagedown"@.len() != "alt"@.len());
            assert("pagedown"@.len() != "menu"@.len());
        } else if vk == 0xC0 {
            assert("backquote"@.len() != "none"@.len());
            assert("backquote"@.len() != "ctrl"@.len());
            assert("backquote"@.len() != "control"@.len());
            assert("backquote"@.len() != "shift"@.len());
            assert("backquote"@.len() != "alt"@.len());
            assert("backquote"@.len() != "menu"@.len());
        } else if vk == 0xBD {
            assert("minus"@.len() != "none"@.len());
            assert("minus"@.len() != "ctrl"@.len());
            assert("minus"@.len() != "control"@.len());
            assert("minus"@[0] != "shift"@[0]);
            assert("minus"@.len() != "alt"@.len());
            assert("minus"@.len() != "menu"@.len());
        } else if vk == 0xBB {
            assert("equals"@.len() != "none"@.len());
            assert("equals"@.len() != "ctrl"@.len());
            assert("equals"@.len() != "control"@.len());
            assert("equals"@.len() != "shift"@.len());
            assert("equals"@.len() != "alt"@.len());
            assert("equals"@.len() != "menu"@.len());
        } else if vk == 0xBC {
            assert("comma"@.len() != "none"@.len());
            assert("comma"@.len() != "ctrl"@.len());
            assert("comma"@.len() != "control"@.len());
            assert("comma"@[0] != "shift"@[0]);
            assert("comma"@.len() != "alt"@.len());
            assert("comma"@.len() != "menu"@.len());
        } else if vk == 0xBE {
            assert("period"@.len() != "none"@.len());
            assert("period"@.len() != "ctrl"@.len());
            assert("period"@.len() != "control"@.len());
            assert("period"@.len() != "shift"@.len());
            assert("period"@.len() != "alt"@.len());
            assert("period"@.len() != "menu"@.len());
        } else if vk == 0xBF {
            assert("slash"@.len() != "none"@.len());
            assert("slash"@.len() != "ctrl"@.len());
            assert("slash"@.len() != "control"@.len());
            assert("slash"@[1] != "shift"@[1]);
            assert("slash"@.len() != "alt"@.len());
            assert("slash"@.len() != "menu"@.len());
        } else if vk == 0xBA {
            assert("semicolon"@.len() != "none"@.len());
            assert("semicolon"@.len() != "ctrl"@.len());
            assert("semicolon"@.len() != "control"@.len());
            assert("semicolon"@.len() != "shift"@.len());
            assert("semicolon"@.len() != "alt"@.len());
            assert("semicolon"@.len() != "menu"@.len());
        } else if vk == 0xDE {
            assert("quote"@.len() != "none"@.len());
            assert("quote"@.len() != "ctrl"@.len());
            assert("quote"@.len() != "control"@.len());
            assert("quote"@[0] != "shift"@[0]);
            assert("quote"@.len() != "alt"@.len());
            assert("quote"@.len() != "menu"@.len());
        } else if vk == 0xDB {
            assert("bracketleft"@.len() != "none"@.len());
            assert("bracketleft"@.len() != "ctrl"@.len());
            assert("bracketleft"@.len() != "control"@.len());
            assert("bracketleft"@.len() != "shift"@.len());
            assert("bracketleft"@.len() != "alt"@.len());
            assert("bracketleft"@.len() != "menu"@.len());
        } else if vk == 0xDD {
            assert("bracketright"@.len() != "none"@.len());
            assert("bracketright"@.len() != "ctrl"@.len());
            assert("bracketright"@.len() != "control"@.len());
            assert("bracketright"@.len() != "shift"@.len());
            assert("bracketright"@.len() != "alt"@.len());
            assert("bracketright"@.len() != "menu"@.len());
        } else if vk == 0xDC {
            assert("backslash"@.len() != "none"@.len());
            assert("backslash"@.len() != "ctrl"@.len());
            assert("backslash"@.len() != "control"@.len());
            assert("backslash"@.len() != "shift"@.len());
            assert("backslash"@.len() != "alt"@.len());
            assert("backslash"@.len() != "menu"@.len());
        }
    }
}

/// The fixed table, name by name: each name reads as its own key and each of those
/// keys is described by its own name; `del` reads as Delete too.
pub proof fn lemma_key_table()
    ensures
        key_code_of("space"@) == Some(0x20u32),
        key_name_of(0x20u32) == "space"@,
        key_code_of("tab"@) == Some(0x9u32),
        key_name_of(0x9u32) == "tab"@,
        key_code_of("insert"@) == Some(0x2Du32),
        key_name_of(0x2Du32) == "insert"@,
        key_code_of("delete"@) == Some(0x2Eu32),
        key_name_of(0x2Eu32) == "delete"@,
        key_code_of("home"@) == Some(0x24u32),
        key_name_of(0x24u32) == "home"@,
        key_code_of("end"@) == Some(0x23u32),
        key_name_of(0x23u32) == "end"@,
        key_code_of("pageup"@) == Some(0x21u32),
        key_name_of(0x21u32) == "pageup"@,
        key_code_of("pagedown"@) == Some(0x22u32),
        key_name_of(0x22u32) == "pagedown"@,
        key_code_of("backquote"@) == Some(0xC0u32),
        key_name_of(0xC0u32) == "backquote"@,
        key_code_of("minus"@) == Some(0xBDu32),
        key_name_of(0xBDu32) == "minus"@,
        key_code_of("equals"@) == Some(0xBBu32),
        key_name_of(0xBBu32) == "equals"@,
        key_code_of("comma"@) == Some(0xBCu32),
        key_name_of(0xBCu32) == "comma"@,
        key_code_of("period"@) == Some(0xBEu32),
        key_name_of(0xBEu32) == "period"@,
        key_code_of("slash"@) == Some(0xBFu32),
        key_name_of(0xBFu32) == "slash"@,
        key_code_of("semicolon"@) == Some(0xBAu32),
        key_name_of(0xBAu32) == "semicolon"@,
        key_code_of("quote"@) == Some(0xDEu32),
        key_name_of(0xDEu32) == "quote"@,
        key_code_of("bracketleft"@) == Some(0xDBu32),
        key_name_of(0xDBu32) == "bracketleft"@,
        key_code_of("bracketright"@) == Some(0xDDu32),
        key_name_of(0xDDu32) == "bracketright"@,
        key_code_of("backslash"@) == Some(0xDCu32),
        key_name_of(0xDCu32) == "backslash"@,
        key_code_of("del"@) == Some(0x2Eu32),
{
    lemma_named_round_trips(0x20u32);
    lemma_key_name_round_trips(0x20u32);
    lemma_named_round_trips(0x9u32);
    lemma_key_name_round_trips(0x9u32);
    lemma_named_round_trips(0x2Du32);
    lemma_key_name_round_trips(0x2Du32);
    lemma_named_round_trips(0x2Eu32);
    lemma_key_name_round_trips(0x2Eu32);
    lemma_named_round_trips(0x24u32);
    lemma_key_name_round_trips(0x24u32);
    lemma_named_round_trips(0x23u32);
    lemma_key_name_round_trips(0x23u32);
    lemma_named_round_trips(0x21u32);
    lemma_key_name_round_trips(0x21u32);
    lemma_named_round_trips(0x22u32);
    lemma_key_name_round_trips(0x22u32);
    lemma_named_round_trips(0xC0u32);
    lemma_key_name_round_trips(0xC0u32);
    lemma_named_round_trips(0xBDu32);
    lemma_key_name_round_trips(0xBDu32);
    lemma_named_round_trips(0xBBu32);
    lemma_key_name_round_trips(0xBBu32);
    lemma_named_round_trips(0xBCu32);
    lemma_key_name_round_trips(0xBCu32);
    lemma_named_round_trips(0xBEu32);
    lemma_key_name_round_trips(0xBEu32);
    lemma_named_round_trips(0xBFu32);
    lemma_key_name_round_trips(0xBFu32);
    lemma_named_round_trips(0xBAu32);
    lemma_key_name_round_trips(0xBAu32);
    lemma_named_round_trips(0xDEu32);
    lemma_key_name_round_trips(0xDEu32);
    lemma_named_round_trips(0xDBu32);
    lemma_key_name_round_trips(0xDBu32);
    lemma_named_round_trips(0xDDu32);
    lemma_key_name_round_trips(0xDDu32);
    lemma_named_round_trips(0xDCu32);
    lemma_key_name_round_trips(0xDCu32);
    reveal_strlit("space");
    reveal_strlit("tab");
    reveal_strlit("insert");
    reveal_strlit("delete");
    reveal_strlit("del");
    assert("del"@.len() != "space"@.len());
    assert("del"@[0] != "tab"@[0]);
    assert("del"@.len() != "insert"@.len());
    assert("del"@.len() != "delete"@.len());
    assert(named_key_code("del"@) == Some(0x2Eu32));
}

/// Letters and digits are their own ASCII codes: a letter of either case reads as its
/// upper-case code and is described by its lower-case letter; a digit reads as its
/// code and is described by itself.
pub proof fn lemma_letters_and_digits(c: char)
    ensures
        'A' <= c <= 'Z' ==> key_code_of(seq![c]) == Some(c as u32),
        'a' <= c <= 'z' ==> key_code_of(seq![c]) == Some((c as u32 - 32) as u32),
        '0' <= c <= '9' ==> key_code_of(seq![c]) == Some(c as u32),
        'A' <= c <= 'Z' ==> key_name_of(c as u32) == seq![((c as u32) + 32) as char],
        '0' <= c <= '9' ==> key_name_of(c as u32) == seq![c],
{
    if 'a' <= c <= 'z' {
        assert(((c as u32) - 32) as char as u32 == (c as u32) - 32);
    }
    if 'A' <= c <= 'Z' || '0' <= c <= '9' {
        assert(((c as u32) as u8) as char == c);
    }
}

/// F1 to F12 read as 0x70 to 0x7B and are described as `f1` to `f12`.
pub proof fn lemma_function_keys(n: u32)
    requires
        1 <= n <= 12,
    ensures
        n < 10 ==> key_name_of((0x6F + n) as u32) == seq!['f', ((0x30 + n) as u8) as char],
        n >= 10 ==> key_name_of((0x6F + n) as u32) == seq![
            'f',
            '1',
            ((0x30 + n - 10) as u8) as char,
        ],
        key_code_of(key_name_of((0x6F + n) as u32)) == Some((0x6F + n) as u32),
{
    reveal_with_fuel(dec_digits, 2);
    lemma_key_name_round_trips((0x6F + n) as u32);
    let k = (n as nat);
    if n >= 10 {
        assert(dec_digits(k) =~= seq![hex_digit(1), hex_digit((k - 10) as nat)]);
        assert(hex_digit(1) == '1');
    } else {
        assert(dec_digits(k) =~= seq![hex_digit(k)]);
    }
}

/// Naming a key of the vocabulary and reading the name back gives the same key.
pub proof fn lemma_key_name_round_trips(vk: u32)
    requires
        in_vocabulary(vk),
    ensures
        key_code_of(key_name_of(vk)) == Some(vk),
{
    let n = key_name_of(vk);
    if 0x70 <= vk <= 0x7B {
        let k = (vk - 0x70 + 1) as nat;
        reveal_with_fuel(dec_digits, 2);
        reveal_with_fuel(dec_value, 3);
        let d = dec_digits(k);
        assert(n.drop_first() =~= d);
        assert(all_digits(d));
        assert(dec_value(d) == k) by {
            if k >= 10 {
                assert(d.drop_last() =~= seq![hex_digit(1)]);
            }
        }
        assert(fkey_number_of(n.drop_first()) == Some(k));
    } else if 0x30 <= vk <= 0x39 || 0x41 <= vk <= 0x5A {
        assert((vk as u8) as char as u32 == vk);
    } else {
        lemma_named_round_trips(vk);
        assert(n[0] != 'f');
    }
}

} // verus!

//! The textual header grammar: turning header characters into a structured
//! value and a structured value back into characters. The parser is stated
//! as a total specification over character sequences (with a fuel bound on
//! nesting); the executable parser and serializer are proved against it.

use vstd::prelude::*;
use vstd::utf8::is_scalar;

use crate::json::{
    lemma_member_shapes, member_shapes, JsonValue, JsonView,
};
use crate::num::{
    hex_val, hex_val_exec, is_hex_digit, is_hex_digit_exec, is_number_char_exec, is_number_text,
    is_number_text_exec,
};
use crate::text::{chars_range, chars_to_string};

verus! {

/// A character the grammar treats as blank between tokens.
pub open spec fn is_json_ws(c: char) -> bool {
    c == ' ' || c == '\t' || c == '\n' || c == '\r'
}

/// The first position at or after `i` that does not hold a blank.
pub open spec fn skip_ws(s: Seq<char>, i: int) -> int
    decreases s.len() - i
        when 0 <= i <= s.len()
{
    if i < s.len() && is_json_ws(s[i]) {
        skip_ws(s, i + 1)
    } else {
        i
    }
}

pub proof fn lemma_skip_ws(s: Seq<char>, i: int)
    requires
        0 <= i <= s.len(),
    ensures
        i <= skip_ws(s, i) <= s.len(),
        skip_ws(s, i) < s.len() ==> !is_json_ws(s[skip_ws(s, i)]),
        forall|k: int| i <= k < skip_ws(s, i) ==> is_json_ws(#[trigger] s[k]),
    decreases s.len() - i,
{
    if i < s.len() && is_json_ws(s[i]) {
        lemma_skip_ws(s, i + 1);
    }
}

/// The character an escape letter stands for, for the single-letter escapes.
pub open spec fn unescape_letter(e: char) -> char {
    if e == 'b' {
        '\u{8}'
    } else if e == 'f' {
        '\u{c}'
    } else if e == 'n' {
        '\n'
    } else if e == 'r' {
        '\r'
    } else {
        '\t'
    }
}

/// The scalar value of four hexadecimal digits starting at `i`.
pub open spec fn hex4_val(s: Seq<char>, i: int) -> int {
    hex_val(s[i]) * 4096 + hex_val(s[i + 1]) * 256 + hex_val(s[i + 2]) * 16 + hex_val(s[i + 3])
}

/// Parses the inside of a string, `i` standing just after the opening
/// quote: plain characters up to the closing quote, with `\` escapes for the
/// quote, the backslash, the slash, the five letter escapes, and `\u` with
/// four hexadecimal digits naming a Unicode scalar. Bare control characters
/// are refused.
pub open spec fn sp_string_body(s: Seq<char>, i: int) -> Option<(Seq<char>, int)>
    decreases s.len() - i
        when 0 <= i <= s.len()
{
    if i >= s.len() {
        None
    } else if s[i] == '"' {
        Some((Seq::<char>::empty(), i + 1))
    } else if s[i] == '\\' {
        if i + 2 > s.len() {
            None
        } else {
            let e = s[i + 1];
            if e == 'u' {
                if i + 6 > s.len() {
                    None
                } else if !(is_hex_digit(s[i + 2]) && is_hex_digit(s[i + 3]) && is_hex_digit(
                    s[i + 4],
                ) && is_hex_digit(s[i + 5])) {
                    None
                } else if !is_scalar(hex4_val(s, i + 2) as u32) {
                    None
                } else {
                    match sp_string_body(s, i + 6) {
                        Some((rest, n)) => Some(
                            (seq![(hex4_val(s, i + 2) as u32) as char] + rest, n),
                        ),
                        None => None,
                    }
                }
            } else if e == '"' || e == '\\' || e == '/' {
                match sp_string_body(s, i + 2) {
                    Some((rest, n)) => Some((seq![e] + rest, n)),
                    None => None,
                }
            } else if e == 'b' || e == 'f' || e == 'n' || e == 'r' || e == 't' {
                match sp_string_body(s, i + 2) {
                    Some((rest, n)) => Some((seq![unescape_letter(e)] + rest, n)),
                    None => None,
                }
            } else {
                None
            }
        }
    } else if (s[i] as u32) < 32 {
        None
    } else {
        match sp_string_body(s, i + 1) {
            Some((rest, n)) => Some((seq![s[i]] + rest, n)),
            None => None,
        }
    }
}

pub proof fn lemma_sp_string_body_pos(s: Seq<char>, i: int)
    requires
        0 <= i <= s.len(),
    ensures
        sp_string_body(s, i) is Some ==> i < (sp_string_body(s, i)->0).1 <= s.len(),
    decreases s.len() - i,
{
    if i < s.len() && s[i] == '\\' && i + 2 <= s.len() {
        if s[i + 1] == 'u' {
            if i + 6 <= s.len() {
                lemma_sp_string_body_pos(s, i + 6);
            }
        } else {
            lemma_sp_string_body_pos(s, i + 2);
        }
    } else if i < s.len() && s[i] != '"' {
        lemma_sp_string_body_pos(s, i + 1);
    }
}

/// The first position at or after `i` without a number character.
pub open spec fn scan_number_chars(s: Seq<char>, i: int) -> int
    decreases s.len() - i
        when 0 <= i <= s.len()
{
    if i < s.len() && crate::num::is_number_char(s[i]) {
        scan_number_chars(s, i + 1)
    } else {
        i
    }
}

pub proof fn lemma_scan_number_chars(s: Seq<char>, i: int)
    requires
        0 <= i <= s.len(),
    ensures
        i <= scan_number_chars(s, i) <= s.len(),
        forall|k: int|
            i <= k < scan_number_chars(s, i) ==> crate::num::is_number_char(#[trigger] s[k]),
        scan_number_chars(s, i) < s.len() ==> !crate::num::is_number_char(
            s[scan_number_chars(s, i)],
        ),
    decreases s.len() - i,
{
    if i < s.len() && crate::num::is_number_char(s[i]) {
        lemma_scan_number_chars(s, i + 1);
    }
}

/// Parses one number token at `i`: the longest run of number characters,
/// accepted when it forms one whole number token, kept as its literal text.
pub open spec fn sp_number(s: Seq<char>, i: int) -> Option<(Seq<char>, int)>
    recommends
        0 <= i <= s.len(),
{
    let j = scan_number_chars(s, i);
    if j > i && is_number_text(s.subrange(i, j)) {
        Some((s.subrange(i, j), j))
    } else {
        None
    }
}

/// Parses one structured value at `i`. The fuel only bounds nesting and
/// member counts; any fuel of at least the remaining length plus one gives
/// the same outcome.
pub open spec fn sp_value(s: Seq<char>, i: int, fuel: nat) -> Option<(JsonView, int)>
    decreases fuel, 0int,
{
    if fuel == 0 {
        None
    } else if !(0 <= i && i < s.len()) {
        None
    } else {
        let c = s[i];
        if c == '{' {
            let j = skip_ws(s, i + 1);
            if j < s.len() && s[j] == '}' {
                Some((JsonView::Obj(Seq::<(Seq<char>, JsonView)>::empty()), j + 1))
            } else {
                match sp_members(s, j, (fuel - 1) as nat) {
                    Some((mems, k)) => {
                        if k < s.len() && s[k] == '}' {
                            Some((JsonView::Obj(mems), k + 1))
                        } else {
                            None
                        }
                    },
                    None => None,
                }
            }
        } else if c == '[' {
            let j = skip_ws(s, i + 1);
            if j < s.len() && s[j] == ']' {
                Some((JsonView::Arr(Seq::<JsonView>::empty()), j + 1))
            } else {
                match sp_elements(s, j, (fuel - 1) as nat) {
                    Some((elems, k)) => {
                        if k < s.len() && s[k] == ']' {
                            Some((JsonView::Arr(elems), k + 1))
                        } else {
                            None
                        }
                    },
                    None => None,
                }
            }
        } else if c == '"' {
            match sp_string_body(s, i + 1) {
                Some((t, n)) => Some((JsonView::Str(t), n)),
                None => None,
            }
        } else if c == 't' {
            if i + 4 <= s.len() && s[i + 1] == 'r' && s[i + 2] == 'u' && s[i + 3] == 'e' {
                Some((JsonView::Bool(true), i + 4))
            } else {
                None
            }
        } else if c == 'f' {
            if i + 5 <= s.len() && s[i + 1] == 'a' && s[i + 2] == 'l' && s[i + 3] == 's' && s[i + 4]
                == 'e' {
                Some((JsonView::Bool(false), i + 5))
            } else {
                None
            }
        } else if c == 'n' {
            if i + 4 <= s.len() && s[i + 1] == 'u' && s[i + 2] == 'l' && s[i + 3] == 'l' {
                Some((JsonView::Null, i + 4))
            } else {
                None
            }
        } else {
            match sp_number(s, i) {
                Some((t, n)) => Some((JsonView::Num(t), n)),
                None => None,
            }
        }
    }
}

/// Parses one or more `"key": value` members at `i` (blanks already
/// consumed), separated by commas, stopping before the closing brace.
pub open spec fn sp_members(s: Seq<char>, i: int, fuel: nat) -> Option<
    (Seq<(Seq<char>, JsonView)>, int),
>
    decreases fuel, 1int,
{
    if fuel == 0 {
        None
    } else if !(0 <= i && i < s.len() && s[i] == '"') {
        None
    } else {
        match sp_string_body(s, i + 1) {
            Some((key, j)) => {
                if !(0 <= j && j <= s.len()) {
                    None
                } else {
                    let j2 = skip_ws(s, j);
                    if j2 < s.len() && s[j2] == ':' {
                        let j3 = skip_ws(s, j2 + 1);
                        match sp_value(s, j3, fuel) {
                            Some((v, k)) => {
                                if !(0 <= k && k <= s.len()) {
                                    None
                                } else {
                                    let k2 = skip_ws(s, k);
                                    if k2 < s.len() && s[k2] == ',' {
                                        let k3 = skip_ws(s, k2 + 1);
                                        match sp_members(s, k3, (fuel - 1) as nat) {
                                            Some((rest, m)) => Some((seq![(key, v)] + rest, m)),
                                            None => None,
                                        }
                                    } else {
                                        Some((seq![(key, v)], k2))
                                    }
                                }
                            },
                            None => None,
                        }
                    } else {
                        None
                    }
                }
            },
            None => None,
        }
    }
}

/// Parses one or more comma-separated values at `i` (blanks already
/// consumed), stopping before the closing bracket.
pub open spec fn sp_elements(s: Seq<char>, i: int, fuel: nat) -> Option<(Seq<JsonView>, int)>
    decreases fuel, 1int,
{
    if fuel == 0 {
        None
    } else {
        match sp_value(s, i, fuel) {
            Some((v, k)) => {
                if !(0 <= k && k <= s.len()) {
                    None
                } else {
                    let k2 = skip_ws(s, k);
                    if k2 < s.len() && s[k2] == ',' {
                        let k3 = skip_ws(s, k2 + 1);
                        match sp_elements(s, k3, (fuel - 1) as nat) {
                            Some((rest, m)) => Some((seq![v] + rest, m)),
                            None => None,
                        }
                    } else {
                        Some((seq![v], k2))
                    }
                }
            },
            None => None,
        }
    }
}

/// A successful parse always stands inside the text and consumes at least
/// one character.
pub proof fn lemma_sp_value_pos(s: Seq<char>, i: int, fuel: nat)
    ensures
        sp_value(s, i, fuel) is Some ==> {
            &&& 0 <= i < s.len()
            &&& i < (sp_value(s, i, fuel)->0).1 <= s.len()
        },
    decreases fuel, 0int,
{
    if fuel > 0 && 0 <= i < s.len() {
        let c = s[i];
        if c == '{' || c == '[' {
            lemma_skip_ws(s, i + 1);
            let j = skip_ws(s, i + 1);
            if c == '{' && !(j < s.len() && s[j] == '}') {
                lemma_sp_members_pos(s, j, (fuel - 1) as nat);
            }
            if c == '[' && !(j < s.len() && s[j] == ']') {
                lemma_sp_elements_pos(s, j, (fuel - 1) as nat);
            }
        } else if c == '"' {
            lemma_sp_string_body_pos(s, i + 1);
        } else if c != 't' && c != 'f' && c != 'n' {
            lemma_scan_number_chars(s, i);
        }
    }
}

pub proof fn lemma_sp_members_pos(s: Seq<char>, i: int, fuel: nat)
    ensures
        sp_members(s, i, fuel) is Some ==> {
            &&& 0 <= i < s.len()
            &&& i < (sp_members(s, i, fuel)->0).1 <= s.len()
        },
    decreases fuel, 1int,
{
    if fuel > 0 && 0 <= i < s.len() && s[i] == '"' {
        lemma_sp_string_body_pos(s, i + 1);
        if sp_string_body(s, i + 1) is Some {
            let (key, j) = sp_string_body(s, i + 1)->0;
            if 0 <= j <= s.len() {
                lemma_skip_ws(s, j);
                let j2 = skip_ws(s, j);
                if j2 < s.len() && s[j2] == ':' {
                    lemma_skip_ws(s, j2 + 1);
                    let j3 = skip_ws(s, j2 + 1);
                    lemma_sp_value_pos(s, j3, fuel);
                    if sp_value(s, j3, fuel) is Some {
                        let (v, k) = sp_value(s, j3, fuel)->0;
                        if 0 <= k <= s.len() {
                            lemma_skip_ws(s, k);
                            let k2 = skip_ws(s, k);
                            if k2 < s.len() && s[k2] == ',' {
                                lemma_skip_ws(s, k2 + 1);
                                lemma_sp_members_pos(s, skip_ws(s, k2 + 1), (fuel - 1) as nat);
                            }
                        }
                    }
                }
            }
        }
    }
}

pub proof fn lemma_sp_elements_pos(s: Seq<char>, i: int, fuel: nat)
    ensures
        sp_elements(s, i, fuel) is Some ==> {
            &&& 0 <= i < s.len()
            &&& i < (sp_elements(s, i, fuel)->0).1 <= s.len()
        },
    decreases fuel, 1int,
{
    if fuel > 0 {
        lemma_sp_value_pos(s, i, fuel);
        if sp_value(s, i, fuel) is Some {
            let (v, k) = sp_value(s, i, fuel)->0;
            if 0 <= k <= s.len() {
                lemma_skip_ws(s, k);
                let k2 = skip_ws(s, k);
                if k2 < s.len() && s[k2] == ',' {
                    lemma_skip_ws(s, k2 + 1);
                    lemma_sp_elements_pos(s, skip_ws(s, k2 + 1), (fuel - 1) as nat);
                }
            }
        }
    }
}

/// Any fuel of at least the remaining length plus one gives the same parse.
pub proof fn lemma_sp_value_fuel(s: Seq<char>, i: int, f1: nat, f2: nat)
    requires
        f1 >= s.len() - i + 1,
        f2 >= s.len() - i + 1,
    ensures
        sp_value(s, i, f1) == sp_value(s, i, f2),
    decreases f1 + f2, 0int,
{
    if 0 <= i < s.len() {
        let c = s[i];
        if c == '{' || c == '[' {
            lemma_skip_ws(s, i + 1);
            let j = skip_ws(s, i + 1);
            if c == '{' && !(j < s.len() && s[j] == '}') {
                lemma_sp_members_fuel(s, j, (f1 - 1) as nat, (f2 - 1) as nat);
            }
            if c == '[' && !(j < s.len() && s[j] == ']') {
                lemma_sp_elements_fuel(s, j, (f1 - 1) as nat, (f2 - 1) as nat);
            }
        }
    }
}

pub proof fn lemma_sp_members_fuel(s: Seq<char>, i: int, f1: nat, f2: nat)
    requires
        f1 >= s.len() - i + 1,
        f2 >= s.len() - i + 1,
    ensures
        sp_members(s, i, f1) == sp_members(s, i, f2),
    decreases f1 + f2, 1int,
{
    if 0 <= i < s.len() && s[i] == '"' {
        lemma_sp_string_body_pos(s, i + 1);
        if sp_string_body(s, i + 1) is Some {
            let (key, j) = sp_string_body(s, i + 1)->0;
            if 0 <= j <= s.len() {
                lemma_skip_ws(s, j);
                let j2 = skip_ws(s, j);
                if j2 < s.len() && s[j2] == ':' {
                    lemma_skip_ws(s, j2 + 1);
                    let j3 = skip_ws(s, j2 + 1);
                    lemma_sp_value_fuel(s, j3, f1, f2);
                    lemma_sp_value_pos(s, j3, f1);
                    if sp_value(s, j3, f1) is Some {
                        let (v, k) = sp_value(s, j3, f1)->0;
                        if 0 <= k <= s.len() {
                            lemma_skip_ws(s, k);
                            let k2 = skip_ws(s, k);
                            if k2 < s.len() && s[k2] == ',' {
                                lemma_skip_ws(s, k2 + 1);
                                lemma_sp_members_fuel(
                                    s,
                                    skip_ws(s, k2 + 1),
                                    (f1 - 1) as nat,
                                    (f2 - 1) as nat,
                                );
                            }
                        }
                    }
                }
            }
        }
    }
}

pub proof fn lemma_sp_elements_fuel(s: Seq<char>, i: int, f1: nat, f2: nat)
    requires
        f1 >= s.len() - i + 1,
        f2 >= s.len() - i + 1,
    ensures
        sp_elements(s, i, f1) == sp_elements(s, i, f2),
    decreases f1 + f2, 1int,
{
    lemma_sp_value_fuel(s, i, f1, f2);
    lemma_sp_value_pos(s, i, f1);
    if sp_value(s, i, f1) is Some {
        let (v, k) = sp_value(s, i, f1)->0;
        if 0 <= k <= s.len() {
            lemma_skip_ws(s, k);
            let k2 = skip_ws(s, k);
            if k2 < s.len() && s[k2] == ',' {
                lemma_skip_ws(s, k2 + 1);
                lemma_sp_elements_fuel(s, skip_ws(s, k2 + 1), (f1 - 1) as nat, (f2 - 1) as nat);
            }
        }
    }
}

/// The fuel that always suffices at position `i`.
pub open spec fn fuel_for(s: Seq<char>, i: int) -> nat {
    (s.len() - i + 1) as nat
}

/// Relies on char::from_u32: a character exists exactly for the Unicode
/// scalar values, and carries that value.
#[verifier::external_body]
fn char_from_u32(v: u32) -> (r: Option<char>)
    ensures
        r is Some <==> is_scalar(v),
        r is Some ==> r->0 as u32 == v,
{
    char::from_u32(v)
}

/// Whether the character is a blank between tokens.
fn is_json_ws_exec(c: char) -> (r: bool)
    ensures
        r == is_json_ws(c),
{
    c == ' ' || c == '\t' || c == '\n' || c == '\r'
}

/// Finds the first position at or after `i` that does not hold a blank.
pub fn skip_ws_exec(cs: &Vec<char>, i: usize) -> (r: usize)
    requires
        i <= cs@.len(),
    ensures
        r == skip_ws(cs@, i as int),
        i <= r <= cs@.len(),
{
    proof {
        lemma_skip_ws(cs@, i as int);
    }
    let mut j: usize = i;
    while j < cs.len() && is_json_ws_exec(cs[j])
        invariant
            i <= j <= cs@.len(),
            skip_ws(cs@, i as int) == skip_ws(cs@, j as int),
        decreases cs@.len() - j,
    {
        j += 1;
    }
    j
}

/// The character an escape letter stands for.
fn unescape_letter_exec(e: char) -> (r: char)
    ensures
        r == unescape_letter(e),
{
    if e == 'b' {
        '\u{8}'
    } else if e == 'f' {
        '\u{c}'
    } else if e == 'n' {
        '\n'
    } else if e == 'r' {
        '\r'
    } else {
        '\t'
    }
}

/// Parses the inside of a string, `start` standing just after the opening
/// quote.
#[verifier::loop_isolation(false)]
fn parse_string_body_exec(cs: &Vec<char>, start: usize) -> (r: Option<(Vec<char>, usize)>)
    requires
        start <= cs@.len(),
    ensures
        r is Some <==> sp_string_body(cs@, start as int) is Some,
        r is Some ==> {
            &&& sp_string_body(cs@, start as int)->0 == ((r->0).0@, (r->0).1 as int)
            &&& start < (r->0).1 <= cs@.len()
        },
{
    let ghost s = cs@;
    proof {
        lemma_sp_string_body_pos(s, start as int);
    }
    let mut acc: Vec<char> = Vec::new();
    let mut i: usize = start;
    while i < cs.len()
        invariant
            start <= i <= s.len(),
            sp_string_body(s, start as int) == (match sp_string_body(s, i as int) {
                Some((c, n)) => Some((acc@ + c, n)),
                None => None::<(Seq<char>, int)>,
            }),
        decreases s.len() - i,
    {
        let ghost old_acc = acc@;
        let c = cs[i];
        if c == '"' {
            proof {
                assert(acc@ + Seq::<char>::empty() =~= acc@);
            }
            return Some((acc, i + 1));
        } else if c == '\\' {
            if cs.len() - i < 2 {
                return None;
            }
            let e = cs[i + 1];
            if e == 'u' {
                if cs.len() - i < 6 {
                    return None;
                }
                if !(is_hex_digit_exec(cs[i + 2]) && is_hex_digit_exec(cs[i + 3])
                    && is_hex_digit_exec(cs[i + 4]) && is_hex_digit_exec(cs[i + 5])) {
                    return None;
                }
                let v: u32 = hex_val_exec(cs[i + 2]) * 4096 + hex_val_exec(cs[i + 3]) * 256
                    + hex_val_exec(cs[i + 4]) * 16 + hex_val_exec(cs[i + 5]);
                proof {
                    assert(v == hex4_val(s, i + 2));
                }
                match char_from_u32(v) {
                    Some(ch) => {
                        proof {
                            vstd::utf8::char_u32_cast(ch, v);
                            assert(ch == (hex4_val(s, i + 2) as u32) as char);
                            if sp_string_body(s, i + 6) is Some {
                                let (rest, n) = sp_string_body(s, i + 6)->0;
                                assert(old_acc + (seq![ch] + rest) =~= (old_acc + seq![ch])
                                    + rest);
                            }
                        }
                        acc.push(ch);
                        i += 6;
                    },
                    None => {
                        return None;
                    },
                }
            } else if e == '"' || e == '\\' || e == '/' {
                proof {
                    if sp_string_body(s, i + 2) is Some {
                        let (rest, n) = sp_string_body(s, i + 2)->0;
                        assert(old_acc + (seq![e] + rest) =~= (old_acc + seq![e]) + rest);
                    }
                }
                acc.push(e);
                i += 2;
            } else if e == 'b' || e == 'f' || e == 'n' || e == 'r' || e == 't' {
                let ch = unescape_letter_exec(e);
                proof {
                    if sp_string_body(s, i + 2) is Some {
                        let (rest, n) = sp_string_body(s, i + 2)->0;
                        assert(old_acc + (seq![ch] + rest) =~= (old_acc + seq![ch]) + rest);
                    }
                }
                acc.push(ch);
                i += 2;
            } else {
                return None;
            }
        } else if (c as u32) < 32 {
            return None;
        } else {
            proof {
                if sp_string_body(s, i + 1) is Some {
                    let (rest, n) = sp_string_body(s, i + 1)->0;
                    assert(old_acc + (seq![c] + rest) =~= (old_acc + seq![c]) + rest);
                }
            }
            acc.push(c);
            i += 1;
        }
    }
    None
}

/// Parses one number token at `i`, kept as its literal text.
fn parse_number_exec(cs: &Vec<char>, i: usize) -> (r: Option<(Vec<char>, usize)>)
    requires
        i <= cs@.len(),
    ensures
        r is Some <==> sp_number(cs@, i as int) is Some,
        r is Some ==> {
            &&& sp_number(cs@, i as int)->0 == ((r->0).0@, (r->0).1 as int)
            &&& i < (r->0).1 <= cs@.len()
        },
{
    proof {
        lemma_scan_number_chars(cs@, i as int);
    }
    let mut j: usize = i;
    while j < cs.len() && is_number_char_exec(cs[j])
        invariant
            i <= j <= cs@.len(),
            scan_number_chars(cs@, i as int) == scan_number_chars(cs@, j as int),
        decreases cs@.len() - j,
    {
        j += 1;
    }
    if j == i {
        return None;
    }
    let tok = chars_range(cs, i, j);
    if is_number_text_exec(&tok) {
        Some((tok, j))
    } else {
        None
    }
}

/// Parses one structured value at `i`.
pub fn parse_value_exec(cs: &Vec<char>, i: usize) -> (r: Option<(JsonValue, usize)>)
    requires
        i <= cs@.len(),
    ensures
        r is Some <==> sp_value(cs@, i as int, fuel_for(cs@, i as int)) is Some,
        r is Some ==> {
            &&& sp_value(cs@, i as int, fuel_for(cs@, i as int))->0 == (
            (r->0).0@,
            (r->0).1 as int,
            )
            &&& i < (r->0).1 <= cs@.len()
        },
    decreases cs@.len() - i, 0int,
{
    let ghost s = cs@;
    let ghost f = fuel_for(s, i as int);
    proof {
        lemma_sp_value_pos(s, i as int, f);
    }
    if i >= cs.len() {
        return None;
    }
    let c = cs[i];
    if c == '{' {
        let j = skip_ws_exec(cs, i + 1);
        if j < cs.len() && cs[j] == '}' {
            let v: Vec<(String, JsonValue)> = Vec::new();
            proof {
                assert(v@ =~= Seq::<(String, JsonValue)>::empty());
                assert(member_shapes(v@) =~= Seq::<(Seq<char>, JsonView)>::empty());
            }
            return Some((JsonValue::Obj(v), j + 1));
        }
        proof {
            lemma_sp_members_fuel(s, j as int, (f - 1) as nat, fuel_for(s, j as int));
        }
        match parse_members_exec(cs, j) {
            Some((mems, k)) => {
                if k < cs.len() && cs[k] == '}' {
                    Some((JsonValue::Obj(mems), k + 1))
                } else {
                    None
                }
            },
            None => None,
        }
    } else if c == '[' {
        let j = skip_ws_exec(cs, i + 1);
        if j < cs.len() && cs[j] == ']' {
            let v: Vec<JsonValue> = Vec::new();
            proof {
                assert(v@ =~= Seq::<JsonValue>::empty());
                assert(crate::json::elem_shapes(v@) =~= Seq::<JsonView>::empty());
            }
            return Some((JsonValue::Arr(v), j + 1));
        }
        proof {
            lemma_sp_elements_fuel(s, j as int, (f - 1) as nat, fuel_for(s, j as int));
        }
        match parse_elements_exec(cs, j) {
            Some((elems, k)) => {
                if k < cs.len() && cs[k] == ']' {
                    Some((JsonValue::Arr(elems), k + 1))
                } else {
                    None
                }
            },
            None => None,
        }
    } else if c == '"' {
        match parse_string_body_exec(cs, i + 1) {
            Some((body, n)) => Some((JsonValue::Str(chars_to_string(&body)), n)),
            None => None,
        }
    } else if c == 't' {
        if cs.len() - i >= 4 && cs[i + 1] == 'r' && cs[i + 2] == 'u' && cs[i + 3] == 'e' {
            Some((JsonValue::Bool(true), i + 4))
        } else {
            None
        }
    } else if c == 'f' {
        if cs.len() - i >= 5 && cs[i + 1] == 'a' && cs[i + 2] == 'l' && cs[i + 3] == 's'
            && cs[i + 4] == 'e' {
            Some((JsonValue::Bool(false), i + 5))
        } else {
            None
        }
    } else if c == 'n' {
        if cs.len() - i >= 4 && cs[i + 1] == 'u' && cs[i + 2] == 'l' && cs[i + 3] == 'l' {
            Some((JsonValue::Null, i + 4))
        } else {
            None
        }
    } else {
        match parse_number_exec(cs, i) {
            Some((tok, n)) => Some((JsonValue::Num(chars_to_string(&tok)), n)),
            None => None,
        }
    }
}

/// Parses one or more `"key": value` members at `i`.
fn parse_members_exec(cs: &Vec<char>, i: usize) -> (r: Option<(Vec<(String, JsonValue)>, usize)>)
    requires
        i <= cs@.len(),
    ensures
        r is Some <==> sp_members(cs@, i as int, fuel_for(cs@, i as int)) is Some,
        r is Some ==> {
            &&& (sp_members(cs@, i as int, fuel_for(cs@, i as int))->0).0 == member_shapes(
                (r->0).0@,
            )
            &&& (sp_members(cs@, i as int, fuel_for(cs@, i as int))->0).1 == (r->0).1 as int
            &&& i < (r->0).1 <= cs@.len()
        },
    decreases cs@.len() - i, 1int,
{
    let ghost s = cs@;
    let ghost f = fuel_for(s, i as int);
    proof {
        lemma_sp_members_pos(s, i as int, f);
    }
    if !(i < cs.len() && cs[i] == '"') {
        return None;
    }
    match parse_string_body_exec(cs, i + 1) {
        Some((key_chars, j)) => {
            let j2 = skip_ws_exec(cs, j);
            if !(j2 < cs.len() && cs[j2] == ':') {
                return None;
            }
            let j3 = skip_ws_exec(cs, j2 + 1);
            proof {
                lemma_sp_value_fuel(s, j3 as int, f, fuel_for(s, j3 as int));
            }
            match parse_value_exec(cs, j3) {
                Some((v, k)) => {
                    let k2 = skip_ws_exec(cs, k);
                    let key = chars_to_string(&key_chars);
                    if k2 < cs.len() && cs[k2] == ',' {
                        let k3 = skip_ws_exec(cs, k2 + 1);
                        proof {
                            lemma_sp_members_fuel(s, k3 as int, (f - 1) as nat, fuel_for(
                                s,
                                k3 as int,
                            ));
                        }
                        match parse_members_exec(cs, k3) {
                            Some((mut rest, m)) => {
                                let ghost rest_view = rest@;
                                let ghost vv = v@;
                                let ghost kk = key@;
                                rest.insert(0, (key, v));
                                proof {
                                    lemma_member_shapes(rest_view);
                                    lemma_member_shapes(rest@);
                                    assert(member_shapes(rest@) =~= seq![(kk, vv)]
                                        + member_shapes(rest_view));
                                }
                                Some((rest, m))
                            },
                            None => None,
                        }
                    } else {
                        let ghost vv = v@;
                        let ghost kk = key@;
                        let mut out: Vec<(String, JsonValue)> = Vec::new();
                        out.push((key, v));
                        proof {
                            lemma_member_shapes(out@);
                            assert(member_shapes(out@) =~= seq![(kk, vv)]);
                        }
                        Some((out, k2))
                    }
                },
                None => None,
            }
        },
        None => None,
    }
}

/// Parses one or more comma-separated values at `i`.
fn parse_elements_exec(cs: &Vec<char>, i: usize) -> (r: Option<(Vec<JsonValue>, usize)>)
    requires
        i <= cs@.len(),
    ensures
        r is Some <==> sp_elements(cs@, i as int, fuel_for(cs@, i as int)) is Some,
        r is Some ==> {
            &&& (sp_elements(cs@, i as int, fuel_for(cs@, i as int))->0).0
                == crate::json::elem_shapes((r->0).0@)
            &&& (sp_elements(cs@, i as int, fuel_for(cs@, i as int))->0).1 == (r->0).1 as int
            &&& i < (r->0).1 <= cs@.len()
        },
    decreases cs@.len() - i, 1int,
{
    let ghost s = cs@;
    let ghost f = fuel_for(s, i as int);
    proof {
        lemma_sp_elements_pos(s, i as int, f);
    }
    match parse_value_exec(cs, i) {
        Some((v, k)) => {
            let k2 = skip_ws_exec(cs, k);
            if k2 < cs.len() && cs[k2] == ',' {
                let k3 = skip_ws_exec(cs, k2 + 1);
                proof {
                    lemma_sp_elements_fuel(s, k3 as int, (f - 1) as nat, fuel_for(s, k3 as int));
                }
                match parse_elements_exec(cs, k3) {
                    Some((mut rest, m)) => {
                        let ghost rest_view = rest@;
                        let ghost vv = v@;
                        rest.insert(0, v);
                        proof {
                            crate::json::lemma_elem_shapes(rest_view);
                            crate::json::lemma_elem_shapes(rest@);
                            assert(crate::json::elem_shapes(rest@) =~= seq![vv]
                                + crate::json::elem_shapes(rest_view));
                        }
                        Some((rest, m))
                    },
                    None => None,
                }
            } else {
                let ghost vv = v@;
                let mut out: Vec<JsonValue> = Vec::new();
                out.push(v);
                proof {
                    crate::json::lemma_elem_shapes(out@);
                    assert(crate::json::elem_shapes(out@) =~= seq![vv]);
                }
                Some((out, k2))
            }
        },
        None => None,
    }
}

/// Parses a whole text as one structured value with nothing but blanks
/// around it.
pub fn parse_text_exec(cs: &Vec<char>) -> (r: Option<JsonValue>)
    ensures
        r is Some <==> parse_text(cs@) is Some,
        r is Some ==> r->0@ == parse_text(cs@)->0,
{
    let ghost s = cs@;
    let i0 = skip_ws_exec(cs, 0);
    proof {
        lemma_sp_value_fuel(s, i0 as int, fuel_for(s, i0 as int), (s.len() + 1) as nat);
    }
    match parse_value_exec(cs, i0) {
        Some((v, k)) => {
            let e = skip_ws_exec(cs, k);
            if e == cs.len() {
                Some(v)
            } else {
                None
            }
        },
        None => None,
    }
}

/// Parsing a whole text: blanks, one value, blanks, and nothing else.
pub open spec fn parse_text(s: Seq<char>) -> Option<JsonView> {
    let i0 = skip_ws(s, 0);
    match sp_value(s, i0, (s.len() + 1) as nat) {
        Some((v, k)) => {
            if 0 <= k <= s.len() && skip_ws(s, k) == s.len() {
                Some(v)
            } else {
                None
            }
        },
        None => None,
    }
}

/// The characters that stand for one string character on the wire: the
/// quote and the backslash are escaped, control characters become `\\u00``xx`,
/// anything else stands as itself.
pub open spec fn escape_char(c: char) -> Seq<char> {
    if c == '"' {
        seq!['\\', '"']
    } else if c == '\\' {
        seq!['\\', '\\']
    } else if (c as u32) < 32 {
        seq!['\\', 'u', '0', '0', crate::num::hex_char((c as u32) as int / 16), crate::num::hex_char(
            (c as u32) as int % 16,
        )]
    } else {
        seq![c]
    }
}

/// The escaped form of a whole string.
pub open spec fn escape_chars(t: Seq<char>) -> Seq<char>
    decreases t.len(),
{
    if t.len() == 0 {
        Seq::<char>::empty()
    } else {
        escape_char(t[0]) + escape_chars(t.drop_first())
    }
}

pub proof fn lemma_escape_chars_snoc(t: Seq<char>, c: char)
    ensures
        escape_chars(t.push(c)) == escape_chars(t) + escape_char(c),
    decreases t.len(),
{
    if t.len() == 0 {
        assert(t.push(c)[0] == c);
        assert(t.push(c).drop_first() =~= Seq::<char>::empty());
        assert(escape_chars(Seq::<char>::empty()) =~= Seq::<char>::empty());
        assert(escape_chars(t.push(c)) =~= escape_chars(t) + escape_char(c));
    } else {
        lemma_escape_chars_snoc(t.drop_first(), c);
        assert(t.push(c).drop_first() =~= t.drop_first().push(c));
        assert(escape_char(t.push(c)[0]) + (escape_chars(t.drop_first()) + escape_char(c)) =~= (
        escape_char(t[0]) + escape_chars(t.drop_first())) + escape_char(c));
    }
}

/// The canonical rendering of a value: no blanks, numbers as their literal
/// text, strings in their escaped form, members and elements separated by
/// single commas.
pub open spec fn ser_value(v: JsonView) -> Seq<char>
    decreases v, 0int,
{
    match v {
        JsonView::Null => seq!['n', 'u', 'l', 'l'],
        JsonView::Bool(b) => {
            if b {
                seq!['t', 'r', 'u', 'e']
            } else {
                seq!['f', 'a', 'l', 's', 'e']
            }
        },
        JsonView::Num(t) => t,
        JsonView::Str(t) => seq!['"'] + escape_chars(t) + seq!['"'],
        JsonView::Arr(es) => {
            proof {
                assert(decreases_to!(v => es));
            }
            seq!['['] + ser_elements(es) + seq![']']
        },
        JsonView::Obj(ms) => {
            proof {
                assert(decreases_to!(v => ms));
            }
            seq!['{'] + ser_members(ms) + seq!['}']
        },
    }
}

/// The rendering of one `"key":value` member.
pub open spec fn ser_member(m: (Seq<char>, JsonView)) -> Seq<char>
    decreases m, 1int,
{
    proof {
        assert(decreases_to!(m => m.1));
    }
    seq!['"'] + escape_chars(m.0) + seq!['"', ':'] + ser_value(m.1)
}

/// The comma-separated renderings of members.
pub open spec fn ser_members(ms: Seq<(Seq<char>, JsonView)>) -> Seq<char>
    decreases ms, 2int,
{
    if ms.len() == 0 {
        Seq::<char>::empty()
    } else {
        proof {
            assert(decreases_to!(ms => ms[0]));
        }
        if ms.len() == 1 {
            ser_member(ms[0])
        } else {
            ser_member(ms[0]) + seq![','] + ser_members(ms.drop_first())
        }
    }
}

/// The comma-separated renderings of elements.
pub open spec fn ser_elements(es: Seq<JsonView>) -> Seq<char>
    decreases es, 2int,
{
    if es.len() == 0 {
        Seq::<char>::empty()
    } else {
        proof {
            assert(decreases_to!(es => es[0]));
        }
        if es.len() == 1 {
            ser_value(es[0])
        } else {
            ser_value(es[0]) + seq![','] + ser_elements(es.drop_first())
        }
    }
}

pub proof fn lemma_ser_elements_snoc(es: Seq<JsonView>, x: JsonView)
    ensures
        es.len() == 0 ==> ser_elements(es.push(x)) == ser_value(x),
        es.len() > 0 ==> ser_elements(es.push(x)) == ser_elements(es) + seq![','] + ser_value(x),
    decreases es.len(),
{
    if es.len() == 0 {
        assert(es.push(x)[0] == x);
        assert(ser_elements(es.push(x)) == ser_value(x));
    } else {
        lemma_ser_elements_snoc(es.drop_first(), x);
        assert(es.push(x).drop_first() =~= es.drop_first().push(x));
        assert(es.push(x)[0] == es[0]);
        if es.len() == 1 {
            assert(ser_elements(es) == ser_value(es[0]));
            assert(ser_elements(es.push(x)) == ser_value(es[0]) + seq![','] + ser_elements(
                es.drop_first().push(x),
            ));
            assert(ser_elements(es.drop_first().push(x)) == ser_value(x));
        } else {
            assert(ser_value(es[0]) + seq![','] + (ser_elements(es.drop_first()) + seq![',']
                + ser_value(x)) =~= (ser_value(es[0]) + seq![','] + ser_elements(es.drop_first()))
                + seq![','] + ser_value(x));
        }
    }
}

pub proof fn lemma_ser_members_snoc(ms: Seq<(Seq<char>, JsonView)>, m: (Seq<char>, JsonView))
    ensures
        ms.len() == 0 ==> ser_members(ms.push(m)) == ser_member(m),
        ms.len() > 0 ==> ser_members(ms.push(m)) == ser_members(ms) + seq![','] + ser_member(m),
    decreases ms.len(),
{
    if ms.len() == 0 {
        assert(ms.push(m)[0] == m);
        assert(ser_members(ms.push(m)) == ser_member(m));
    } else {
        lemma_ser_members_snoc(ms.drop_first(), m);
        assert(ms.push(m).drop_first() =~= ms.drop_first().push(m));
        assert(ms.push(m)[0] == ms[0]);
        if ms.len() == 1 {
            assert(ser_members(ms) == ser_member(ms[0]));
            assert(ser_members(ms.push(m)) == ser_member(ms[0]) + seq![','] + ser_members(
                ms.drop_first().push(m),
            ));
            assert(ser_members(ms.drop_first().push(m)) == ser_member(m));
        } else {
            assert(ser_member(ms[0]) + seq![','] + (ser_members(ms.drop_first()) + seq![',']
                + ser_member(m)) =~= (ser_member(ms[0]) + seq![','] + ser_members(
                ms.drop_first(),
            )) + seq![','] + ser_member(m));
        }
    }
}

/// Appends the escaped form of the string to `out`.
#[verifier::loop_isolation(false)]
fn escape_append(t: &str, out: &mut Vec<char>)
    ensures
        final(out)@ == old(out)@ + escape_chars(t@),
{
    let cs = crate::text::str_chars(t);
    let mut i: usize = 0;
    proof {
        assert(escape_chars(cs@.take(0)) =~= Seq::<char>::empty());
        assert(out@ + escape_chars(cs@.take(0)) =~= out@);
    }
    while i < cs.len()
        invariant
            i <= cs@.len(),
            out@ == old(out)@ + escape_chars(cs@.take(i as int)),
        decreases cs@.len() - i,
    {
        let c = cs[i];
        proof {
            lemma_escape_chars_snoc(cs@.take(i as int), c);
            assert(cs@.take(i as int).push(c) =~= cs@.take(i + 1));
        }
        if c == '"' {
            out.push('\\');
            out.push('"');
        } else if c == '\\' {
            out.push('\\');
            out.push('\\');
        } else if (c as u32) < 32 {
            out.push('\\');
            out.push('u');
            out.push('0');
            out.push('0');
            out.push(crate::num::hex_char_exec((c as u32) / 16));
            out.push(crate::num::hex_char_exec((c as u32) % 16));
        } else {
            out.push(c);
        }
        proof {
            assert(out@ =~= old(out)@ + escape_chars(cs@.take(i + 1)));
        }
        i += 1;
    }
    proof {
        assert(cs@.take(i as int) =~= cs@);
    }
}

/// Appends the canonical rendering of the value to `out`.
#[verifier::loop_isolation(false)]
pub fn ser_value_append(v: &JsonValue, out: &mut Vec<char>)
    ensures
        final(out)@ == old(out)@ + ser_value(v@),
    decreases v,
{
    match v {
        JsonValue::Null => {
            out.push('n');
            out.push('u');
            out.push('l');
            out.push('l');
            proof {
                assert(out@ =~= old(out)@ + ser_value(v@));
            }
        },
        JsonValue::Bool(b) => {
            if *b {
                out.push('t');
                out.push('r');
                out.push('u');
                out.push('e');
            } else {
                out.push('f');
                out.push('a');
                out.push('l');
                out.push('s');
                out.push('e');
            }
            proof {
                assert(out@ =~= old(out)@ + ser_value(v@));
            }
        },
        JsonValue::Num(t) => {
            let cs = crate::text::str_chars(t.as_str());
            let mut i: usize = 0;
            while i < cs.len()
                invariant
                    i <= cs@.len(),
                    out@ == old(out)@ + cs@.take(i as int),
                decreases cs@.len() - i,
            {
                out.push(cs[i]);
                proof {
                    assert(out@ =~= old(out)@ + cs@.take(i + 1));
                }
                i += 1;
            }
            proof {
                assert(cs@.take(i as int) =~= cs@);
            }
        },
        JsonValue::Str(t) => {
            out.push('"');
            escape_append(t.as_str(), out);
            out.push('"');
            proof {
                assert(out@ =~= old(out)@ + (seq!['"'] + escape_chars(t@) + seq!['"']));
            }
        },
        JsonValue::Arr(items) => {
            let ghost es = crate::json::elem_shapes(items@);
            proof {
                crate::json::lemma_elem_shapes(items@);
            }
            out.push('[');
            let mut i: usize = 0;
            proof {
                assert(es.take(0) =~= Seq::<JsonView>::empty());
                assert(ser_elements(es.take(0)) =~= Seq::<char>::empty());
                assert(out@ =~= old(out)@ + seq!['['] + ser_elements(es.take(0)));
            }
            while i < items.len()
                invariant
                    i <= items@.len(),
                    es.len() == items@.len(),
                    out@ == old(out)@ + seq!['['] + ser_elements(es.take(i as int)),
                decreases items@.len() - i,
            {
                if i > 0 {
                    out.push(',');
                }
                proof {
                    assert(decreases_to!(items => items@));
                    assert(decreases_to!(items@ => items@[i as int]));
                    lemma_ser_elements_snoc(es.take(i as int), es[i as int]);
                    assert(es.take(i as int).push(es[i as int]) =~= es.take(i + 1));
                }
                ser_value_append(&items[i], out);
                proof {
                    assert(out@ =~= old(out)@ + seq!['['] + ser_elements(es.take(i + 1)));
                }
                i += 1;
            }
            out.push(']');
            proof {
                assert(es.take(i as int) =~= es);
                assert(out@ =~= old(out)@ + ser_value(v@));
            }
        },
        JsonValue::Obj(mems) => {
            let ghost ms = member_shapes(mems@);
            proof {
                lemma_member_shapes(mems@);
            }
            out.push('{');
            let mut i: usize = 0;
            proof {
                assert(ms.take(0) =~= Seq::<(Seq<char>, JsonView)>::empty());
                assert(ser_members(ms.take(0)) =~= Seq::<char>::empty());
                assert(out@ =~= old(out)@ + seq!['{'] + ser_members(ms.take(0)));
            }
            while i < mems.len()
                invariant
                    i <= mems@.len(),
                    ms.len() == mems@.len(),
                    out@ == old(out)@ + seq!['{'] + ser_members(ms.take(i as int)),
                decreases mems@.len() - i,
            {
                if i > 0 {
                    out.push(',');
                }
                proof {
                    lemma_ser_members_snoc(ms.take(i as int), ms[i as int]);
                    assert(ms.take(i as int).push(ms[i as int]) =~= ms.take(i + 1));
                }
                out.push('"');
                escape_append(mems[i].0.as_str(), out);
                out.push('"');
                out.push(':');
                proof {
                    assert(decreases_to!(mems => mems@));
                    assert(decreases_to!(mems@ => mems@[i as int]));
                    assert(decreases_to!(mems@[i as int] => mems@[i as int].1));
                }
                ser_value_append(&mems[i].1, out);
                proof {
                    assert(out@ =~= old(out)@ + seq!['{'] + ser_members(ms.take(i + 1)));
                }
                i += 1;
            }
            out.push('}');
            proof {
                assert(ms.take(i as int) =~= ms);
                assert(out@ =~= old(out)@ + ser_value(v@));
            }
        },
    }
}
/// Scanning stops exactly at `j` when everything before `j` is a number
/// character and `j` is the end or holds none.
proof fn lemma_scan_exact(s: Seq<char>, i: int, j: int)
    requires
        0 <= i <= j <= s.len(),
        forall|k: int| i <= k < j ==> crate::num::is_number_char(#[trigger] s[k]),
        j == s.len() || !crate::num::is_number_char(s[j]),
    ensures
        scan_number_chars(s, i) == j,
    decreases j - i,
{
    if i < j {
        lemma_scan_exact(s, i + 1, j);
    }
}

/// The characters standing at `i` are exactly those of `p`.
proof fn lemma_chars_at(s: Seq<char>, i: int, p: Seq<char>)
    requires
        0 <= i,
        i + p.len() <= s.len(),
        s.subrange(i, i + p.len()) == p,
    ensures
        forall|k: int| 0 <= k < p.len() ==> s[i + k] == #[trigger] p[k],
{
    assert forall|k: int| 0 <= k < p.len() implies s[i + k] == #[trigger] p[k] by {
        assert(p[k] == s.subrange(i, i + p.len())[k]);
    }
}

/// The one character standing at `i`.
proof fn lemma_char_at(s: Seq<char>, i: int, c: char)
    requires
        0 <= i,
        i + 1 <= s.len(),
        s.subrange(i, i + 1) == seq![c],
    ensures
        s[i] == c,
{
    assert(s[i] == s.subrange(i, i + 1)[0]);
}

/// A stretch of text equal to `p + q` splits into one equal to `p` and one
/// equal to `q`.
proof fn lemma_split_at(s: Seq<char>, i: int, p: Seq<char>, q: Seq<char>)
    requires
        0 <= i,
        i + p.len() + q.len() <= s.len(),
        s.subrange(i, i + p.len() + q.len()) == p + q,
    ensures
        s.subrange(i, i + p.len()) == p,
        s.subrange(i + p.len(), i + p.len() + q.len()) == q,
{
    lemma_chars_at(s, i, p + q);
    assert forall|k: int| 0 <= k < p.len() implies s.subrange(i, i + p.len())[k] == #[trigger] p[k]
        by {
        assert(s[i + k] == (p + q)[k]);
    }
    assert(s.subrange(i, i + p.len()) =~= p);
    assert forall|k: int|
        0 <= k < q.len() implies s.subrange(i + p.len(), i + p.len() + q.len())[k]
        == #[trigger] q[k] by {
        assert(s[i + p.len() + k] == (p + q)[p.len() + k]);
    }
    assert(s.subrange(i + p.len(), i + p.len() + q.len()) =~= q);
}

/// The first character of a canonical rendering is never a blank, a comma,
/// a closing brace, a closing bracket or a colon.
proof fn lemma_ser_value_first(v: JsonView)
    requires
        crate::json::wf_json(v),
    ensures
        ser_value(v).len() >= 1,
        !is_json_ws(ser_value(v)[0]),
        ser_value(v)[0] != ',' && ser_value(v)[0] != '}' && ser_value(v)[0] != ']' && ser_value(
            v,
        )[0] != ':',
{
    match v {
        JsonView::Num(t) => {
            assert(t.len() >= 1 && (t[0] == '-' || crate::num::is_digit(t[0])));
        },
        _ => {},
    }
}

/// Parsing the escaped form of a string followed by the closing quote
/// yields the string itself.
proof fn lemma_rt_string_body(s: Seq<char>, j: int, t: Seq<char>)
    requires
        0 <= j,
        j + escape_chars(t).len() + 1 <= s.len(),
        s.subrange(j, j + escape_chars(t).len()) == escape_chars(t),
        s[j + escape_chars(t).len()] == '"',
    ensures
        sp_string_body(s, j) == Some((t, j + escape_chars(t).len() + 1)),
    decreases t.len(),
{
    let esc = escape_chars(t);
    if t.len() == 0 {
        assert(esc =~= Seq::<char>::empty());
        assert(s[j] == '"');
    } else {
        let c = t[0];
        let e0 = escape_char(c);
        let rest = escape_chars(t.drop_first());
        assert(esc == e0 + rest);
        let a = e0.len() as int;
        lemma_split_at(s, j, e0, rest);
        lemma_chars_at(s, j, e0);
        assert(s[j + a + rest.len()] == '"');
        lemma_rt_string_body(s, j + a, t.drop_first());
        assert(seq![c] + t.drop_first() =~= t);
        if c == '"' || c == '\\' {
            assert(s[j] == e0[0] && s[j + 1] == e0[1]);
            assert(s[j] == '\\');
            assert(s[j + 1] == c);
        } else if (c as u32) < 32 {
            let cv = (c as u32) as int;
            assert(s[j] == e0[0] && s[j + 1] == e0[1] && s[j + 2] == e0[2] && s[j + 3] == e0[3]
                && s[j + 4] == e0[4] && s[j + 5] == e0[5]);
            assert(s[j] == '\\' && s[j + 1] == 'u' && s[j + 2] == '0' && s[j + 3] == '0');
            assert(s[j + 4] == crate::num::hex_char(cv / 16));
            assert(s[j + 5] == crate::num::hex_char(cv % 16));
            crate::num::lemma_hex_char_val(cv / 16);
            crate::num::lemma_hex_char_val(cv % 16);
            assert(crate::num::hex_val('0') == 0);
            assert(cv / 16 * 16 + cv % 16 == cv) by (nonlinear_arith)
                requires
                    0 <= cv < 32,
            ;
            assert(hex4_val(s, j + 2) == cv);
            vstd::utf8::char_is_scalar(c);
            assert(is_scalar(hex4_val(s, j + 2) as u32));
            vstd::utf8::char_u32_cast(c, c as u32);
            assert((hex4_val(s, j + 2) as u32) as char == c);
        } else {
            assert(s[j] == e0[0]);
            assert(s[j] == c);
        }
    }
}

/// Parsing the canonical rendering of a number token, bounded by the end or
/// a delimiter, yields its text.
proof fn lemma_rt_number(s: Seq<char>, i: int, t: Seq<char>)
    requires
        0 <= i,
        i + t.len() <= s.len(),
        s.subrange(i, i + t.len()) == t,
        is_number_text(t),
        i + t.len() == s.len() || s[i + t.len()] == ',' || s[i + t.len()] == '}' || s[i + t.len()]
            == ']',
    ensures
        sp_number(s, i) == Some((t, i + t.len())),
{
    crate::num::lemma_number_text_chars(t);
    lemma_chars_at(s, i, t);
    assert forall|k: int| i <= k < i + t.len() implies crate::num::is_number_char(
        #[trigger] s[k],
    ) by {
        assert(s[k] == t[k - i]);
    }
    lemma_scan_exact(s, i, i + t.len());
}

/// Parsing the canonical rendering of a well-formed value, bounded by the
/// end or a delimiter, yields the value itself and consumes exactly the
/// rendering.
pub proof fn lemma_rt_value(s: Seq<char>, i: int, v: JsonView, fuel: nat)
    requires
        crate::json::wf_json(v),
        0 <= i,
        i + ser_value(v).len() <= s.len(),
        s.subrange(i, i + ser_value(v).len()) == ser_value(v),
        i + ser_value(v).len() == s.len() || s[i + ser_value(v).len()] == ',' || s[i + ser_value(
            v,
        ).len()] == '}' || s[i + ser_value(v).len()] == ']',
        fuel >= s.len() - i + 1,
    ensures
        sp_value(s, i, fuel) == Some((v, i + ser_value(v).len())),
    decreases v, 0int,
{
    let w = ser_value(v);
    lemma_ser_value_first(v);
    lemma_chars_at(s, i, w);
    match v {
        JsonView::Null => {
            assert(w.len() == 4);
            assert(s[i] == 'n' && s[i + 1] == 'u' && s[i + 2] == 'l' && s[i + 3] == 'l');
            assert(s[i] != '{' && s[i] != '[' && s[i] != '"' && s[i] != 't' && s[i] != 'f');
            assert(sp_value(s, i, fuel) == Some((JsonView::Null, i + 4)));
            assert(v == JsonView::Null);
            assert(sp_value(s, i, fuel) == Some((v, i + ser_value(v).len())));
        },
        JsonView::Bool(b) => {
            if b {
                assert(s[i] == 't' && s[i + 1] == 'r' && s[i + 2] == 'u' && s[i + 3] == 'e');
            } else {
                assert(s[i] == 'f' && s[i + 1] == 'a' && s[i + 2] == 'l' && s[i + 3] == 's' && s[i
                    + 4] == 'e');
            }
            assert(sp_value(s, i, fuel) == Some((v, i + ser_value(v).len())));
        },
        JsonView::Num(t) => {
            lemma_rt_number(s, i, t);
            assert(s[i] == t[0]);
            assert(sp_value(s, i, fuel) == Some((v, i + ser_value(v).len())));
        },
        JsonView::Str(t) => {
            let esc = escape_chars(t);
            assert(w == seq!['"'] + (esc + seq!['"'])) by {
                assert(w =~= seq!['"'] + (esc + seq!['"']));
            };
            lemma_split_at(s, i, seq!['"'], esc + seq!['"']);
            lemma_split_at(s, i + 1, esc, seq!['"']);
            lemma_char_at(s, i, '"');
            lemma_char_at(s, i + 1 + esc.len(), '"');
            lemma_rt_string_body(s, i + 1, t);
            assert(sp_value(s, i, fuel) == Some((v, i + ser_value(v).len())));
        },
        JsonView::Arr(es) => {
            let body = ser_elements(es);
            assert(w == seq!['['] + (body + seq![']'])) by {
                assert(w =~= seq!['['] + (body + seq![']']));
            };
            lemma_split_at(s, i, seq!['['], body + seq![']']);
            lemma_split_at(s, i + 1, body, seq![']']);
            lemma_char_at(s, i, '[');
            lemma_char_at(s, i + 1 + body.len(), ']');
            if es.len() == 0 {
                assert(es =~= Seq::<JsonView>::empty());
                assert(body =~= Seq::<char>::empty());
                assert(s[i + 1] == ']');
                assert(skip_ws(s, i + 1) == i + 1);
            } else {
                crate::json::lemma_wf_elems(es);
                assert(decreases_to!(v => es));
                lemma_rt_elements(s, i + 1, es, (fuel - 1) as nat);
                assert(crate::json::wf_json(es[0]));
                lemma_ser_value_first(es[0]);
                lemma_chars_at(s, i + 1, body);
                assert(body[0] == ser_value(es[0])[0]);
                assert(s[i + 1] == body[0]);
                assert(skip_ws(s, i + 1) == i + 1);
                assert(s[i + 1] != ']');
            }
            assert(sp_value(s, i, fuel) == Some((v, i + ser_value(v).len())));
        },
        JsonView::Obj(ms) => {
            let body = ser_members(ms);
            assert(w == seq!['{'] + (body + seq!['}'])) by {
                assert(w =~= seq!['{'] + (body + seq!['}']));
            };
            lemma_split_at(s, i, seq!['{'], body + seq!['}']);
            lemma_split_at(s, i + 1, body, seq!['}']);
            lemma_char_at(s, i, '{');
            lemma_char_at(s, i + 1 + body.len(), '}');
            if ms.len() == 0 {
                assert(ms =~= Seq::<(Seq<char>, JsonView)>::empty());
                assert(body =~= Seq::<char>::empty());
                assert(s[i + 1] == '}');
                assert(skip_ws(s, i + 1) == i + 1);
            } else {
                crate::json::lemma_wf_members(ms);
                assert(decreases_to!(v => ms));
                lemma_rt_members(s, i + 1, ms, (fuel - 1) as nat);
                lemma_chars_at(s, i + 1, body);
                assert(body[0] == ser_member(ms[0])[0]);
                assert(ser_member(ms[0])[0] == '"') by {
                    assert(ser_member(ms[0]) == seq!['"'] + escape_chars(ms[0].0) + seq!['"', ':']
                        + ser_value(ms[0].1));
                };
                assert(s[i + 1] == '"');
                assert(skip_ws(s, i + 1) == i + 1);
                assert(s[i + 1] != '}');
            }
            assert(sp_value(s, i, fuel) == Some((v, i + ser_value(v).len())));
        },
    }
}

/// Parsing the canonical renderings of one or more members, bounded by the
/// closing brace, yields the members themselves.
proof fn lemma_rt_members(s: Seq<char>, j: int, ms: Seq<(Seq<char>, JsonView)>, fuel: nat)
    requires
        ms.len() >= 1,
        crate::json::wf_members(ms),
        0 <= j,
        j + ser_members(ms).len() < s.len(),
        s.subrange(j, j + ser_members(ms).len()) == ser_members(ms),
        s[j + ser_members(ms).len()] == '}',
        fuel >= s.len() - j + 1,
    ensures
        sp_members(s, j, fuel) == Some((ms, j + ser_members(ms).len())),
    decreases ms, 1int,
{
    let body = ser_members(ms);
    let m0 = ms[0];
    assert(decreases_to!(ms => ms[0]));
    assert(decreases_to!(ms[0] => ms[0].1));
    crate::json::lemma_wf_members(ms);
    assert(crate::json::wf_json(m0.1));
    let head = ser_member(m0);
    let esc = escape_chars(m0.0);
    let vw = ser_value(m0.1);
    lemma_ser_value_first(m0.1);
    assert(head == seq!['"'] + esc + seq!['"', ':'] + vw);
    let rest: Seq<char> = if ms.len() == 1 {
        Seq::<char>::empty()
    } else {
        seq![','] + ser_members(ms.drop_first())
    };
    assert(body == head + rest) by {
        if ms.len() == 1 {
            assert(body =~= head + rest);
        } else {
            assert(body =~= head + rest);
        }
    };
    lemma_split_at(s, j, head, rest);
    assert(head =~= seq!['"'] + (esc + (seq!['"', ':'] + vw)));
    lemma_split_at(s, j, seq!['"'], esc + (seq!['"', ':'] + vw));
    lemma_split_at(s, j + 1, esc, seq!['"', ':'] + vw);
    lemma_split_at(s, j + 1 + esc.len(), seq!['"', ':'], vw);
    assert(seq!['"'] + seq![':'] =~= seq!['"', ':']);
    lemma_split_at(s, j + 1 + esc.len(), seq!['"'], seq![':']);
    lemma_char_at(s, j, '"');
    lemma_char_at(s, j + 1 + esc.len(), '"');
    lemma_char_at(s, j + 2 + esc.len(), ':');
    lemma_rt_string_body(s, j + 1, m0.0);
    let after_key = j + 2 + esc.len();
    assert(sp_string_body(s, j + 1) == Some((m0.0, after_key)));
    assert(skip_ws(s, after_key) == after_key);
    let j3 = after_key + 1;
    lemma_chars_at(s, j3, vw);
    assert(s[j3] == vw[0]);
    assert(skip_ws(s, j3) == j3);
    let k = j3 + vw.len();
    assert(k == j + head.len());
    if ms.len() == 1 {
        assert(s[k] == '}');
        lemma_rt_value(s, j3, m0.1, fuel);
        assert(skip_ws(s, k) == k);
        assert(m0 == (m0.0, m0.1));
        assert(seq![(m0.0, m0.1)] =~= ms);
    } else {
        let k3 = k + 1;
        let tail = ser_members(ms.drop_first());
        lemma_split_at(s, k, seq![','], tail);
        lemma_char_at(s, k, ',');
        lemma_rt_value(s, j3, m0.1, fuel);
        assert(skip_ws(s, k) == k);
        assert(k3 + tail.len() == j + body.len());
        assert(s[k3 + tail.len()] == '}');
        assert(ms.drop_first().len() >= 1);
        assert(crate::json::wf_members(ms.drop_first()));
        lemma_chars_at(s, k3, tail);
        assert(tail[0] == ser_member(ms.drop_first()[0])[0]);
        assert(ser_member(ms.drop_first()[0])[0] == '"') by {
            assert(ser_member(ms.drop_first()[0]) == seq!['"'] + escape_chars(
                ms.drop_first()[0].0,
            ) + seq!['"', ':'] + ser_value(ms.drop_first()[0].1));
        };
        assert(s[k3] == '"');
        assert(skip_ws(s, k3) == k3);
        assert(decreases_to!(ms => ms.drop_first()));
        lemma_rt_members(s, k3, ms.drop_first(), (fuel - 1) as nat);
        assert(m0 == (m0.0, m0.1));
        assert(seq![(m0.0, m0.1)] + ms.drop_first() =~= ms);
    }
}

/// Parsing the canonical renderings of one or more elements, bounded by the
/// closing bracket, yields the elements themselves.
proof fn lemma_rt_elements(s: Seq<char>, j: int, es: Seq<JsonView>, fuel: nat)
    requires
        es.len() >= 1,
        crate::json::wf_elems(es),
        0 <= j,
        j + ser_elements(es).len() < s.len(),
        s.subrange(j, j + ser_elements(es).len()) == ser_elements(es),
        s[j + ser_elements(es).len()] == ']',
        fuel >= s.len() - j + 1,
    ensures
        sp_elements(s, j, fuel) == Some((es, j + ser_elements(es).len())),
    decreases es, 1int,
{
    let body = ser_elements(es);
    let e0 = es[0];
    assert(decreases_to!(es => es[0]));
    crate::json::lemma_wf_elems(es);
    assert(crate::json::wf_json(e0));
    let vw = ser_value(e0);
    lemma_ser_value_first(e0);
    let rest: Seq<char> = if es.len() == 1 {
        Seq::<char>::empty()
    } else {
        seq![','] + ser_elements(es.drop_first())
    };
    assert(body == vw + rest) by {
        if es.len() == 1 {
            assert(body =~= vw + rest);
        } else {
            assert(body =~= vw + rest);
        }
    };
    lemma_split_at(s, j, vw, rest);
    let k = j + vw.len();
    if es.len() == 1 {
        assert(s[k] == ']');
        lemma_rt_value(s, j, e0, fuel);
        assert(skip_ws(s, k) == k);
        assert(seq![e0] =~= es);
    } else {
        let k3 = k + 1;
        let tail = ser_elements(es.drop_first());
        lemma_split_at(s, k, seq![','], tail);
        lemma_char_at(s, k, ',');
        lemma_rt_value(s, j, e0, fuel);
        assert(skip_ws(s, k) == k);
        assert(k3 + tail.len() == j + body.len());
        assert(s[k3 + tail.len()] == ']');
        assert(es.drop_first().len() >= 1);
        assert(crate::json::wf_elems(es.drop_first()));
        assert(crate::json::wf_json(es.drop_first()[0]));
        lemma_ser_value_first(es.drop_first()[0]);
        lemma_chars_at(s, k3, tail);
        assert(tail[0] == ser_value(es.drop_first()[0])[0]);
        assert(s[k3] == tail[0]);
        assert(skip_ws(s, k3) == k3);
        assert(decreases_to!(es => es.drop_first()));
        lemma_rt_elements(s, k3, es.drop_first(), (fuel - 1) as nat);
        assert(seq![e0] + es.drop_first() =~= es);
    }
}

/// Round trip: the canonical rendering of a well-formed value parses back
/// to exactly that value.
pub proof fn lemma_parse_of_rendering(v: JsonView)
    requires
        crate::json::wf_json(v),
    ensures
        parse_text(ser_value(v)) == Some(v),
{
    let s = ser_value(v);
    lemma_ser_value_first(v);
    assert(skip_ws(s, 0) == 0);
    assert(s.subrange(0, s.len() as int) =~= s);
    lemma_rt_value(s, 0, v, (s.len() + 1) as nat);
    assert(skip_ws(s, s.len() as int) == s.len());
}

/// No NUL character anywhere in the sequence.
pub open spec fn no_nul(s: Seq<char>) -> bool {
    forall|k: int| 0 <= k < s.len() ==> (#[trigger] s[k]) as u32 != 0
}

proof fn lemma_escape_char_no_nul(c: char)
    ensures
        no_nul(escape_char(c)),
{
    if c == '"' || c == '\\' {
    } else if (c as u32) < 32 {
        let cv = (c as u32) as int;
        crate::num::lemma_hex_char_val(cv / 16);
        crate::num::lemma_hex_char_val(cv % 16);
        assert(forall|k: int|
            0 <= k < escape_char(c).len() ==> (#[trigger] escape_char(c)[k]) as u32 != 0) by {
            assert(crate::num::is_hex_digit(escape_char(c)[4]));
            assert(crate::num::is_hex_digit(escape_char(c)[5]));
        };
    } else {
    }
}

proof fn lemma_escape_chars_no_nul(t: Seq<char>)
    ensures
        no_nul(escape_chars(t)),
    decreases t.len(),
{
    if t.len() > 0 {
        lemma_escape_char_no_nul(t[0]);
        lemma_escape_chars_no_nul(t.drop_first());
        assert(escape_chars(t) == escape_char(t[0]) + escape_chars(t.drop_first()));
    }
}

/// The canonical rendering of a well-formed value never holds a NUL
/// character: every string character is escaped or at least a space, and
/// every token character is printable.
pub proof fn lemma_ser_value_no_nul(v: JsonView)
    requires
        crate::json::wf_json(v),
    ensures
        no_nul(ser_value(v)),
    decreases v, 0int,
{
    match v {
        JsonView::Null => {},
        JsonView::Bool(b) => {},
        JsonView::Num(t) => {
            crate::num::lemma_number_text_chars(t);
        },
        JsonView::Str(t) => {
            lemma_escape_chars_no_nul(t);
        },
        JsonView::Arr(es) => {
            crate::json::lemma_wf_elems(es);
            if es.len() > 0 {
                assert(decreases_to!(v => es));
                lemma_ser_elements_no_nul(es);
            } else {
                assert(ser_elements(es) =~= Seq::<char>::empty());
            }
        },
        JsonView::Obj(ms) => {
            crate::json::lemma_wf_members(ms);
            if ms.len() > 0 {
                assert(decreases_to!(v => ms));
                lemma_ser_members_no_nul(ms);
            } else {
                assert(ser_members(ms) =~= Seq::<char>::empty());
            }
        },
    }
}

proof fn lemma_ser_members_no_nul(ms: Seq<(Seq<char>, JsonView)>)
    requires
        ms.len() >= 1,
        crate::json::wf_members(ms),
    ensures
        no_nul(ser_members(ms)),
    decreases ms, 1int,
{
    assert(decreases_to!(ms => ms[0]));
    assert(decreases_to!(ms[0] => ms[0].1));
    crate::json::lemma_wf_members(ms);
    lemma_escape_chars_no_nul(ms[0].0);
    lemma_ser_value_no_nul(ms[0].1);
    if ms.len() == 1 {
        assert(ser_members(ms) == ser_member(ms[0]));
    } else {
        assert(decreases_to!(ms => ms.drop_first()));
        crate::json::lemma_wf_members(ms.drop_first());
        lemma_ser_members_no_nul(ms.drop_first());
        assert(ser_members(ms) == ser_member(ms[0]) + seq![','] + ser_members(ms.drop_first()));
    }
}

proof fn lemma_ser_elements_no_nul(es: Seq<JsonView>)
    requires
        es.len() >= 1,
        crate::json::wf_elems(es),
    ensures
        no_nul(ser_elements(es)),
    decreases es, 1int,
{
    assert(decreases_to!(es => es[0]));
    crate::json::lemma_wf_elems(es);
    lemma_ser_value_no_nul(es[0]);
    if es.len() == 1 {
        assert(ser_elements(es) == ser_value(es[0]));
    } else {
        assert(decreases_to!(es => es.drop_first()));
        crate::json::lemma_wf_elems(es.drop_first());
        lemma_ser_elements_no_nul(es.drop_first());
        assert(ser_elements(es) == ser_value(es[0]) + seq![','] + ser_elements(es.drop_first()));
    }
}

} // verus!

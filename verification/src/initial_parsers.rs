//! Parsers of the header lines of a CVM program: the prime, the memory sizes,
//! the start template, the component creation mode, the witness and the inputs.
//! Each parser takes the text that remains and returns what is left after the
//! part it read, with the value read, or an error when the text does not match.

use vstd::prelude::*;

use crate::ast::ComponentCreationMode;
use crate::types::{limbs_value, BigNum};

verus! {

broadcast use vstd::string::group_string_axioms;

/// The text does not match what the parser reads.
#[derive(Clone, Copy, Debug, PartialEq, Eq, Structural)]
pub struct ParseError;

// ---------------------------------------------------------------------------
// Pieces of text
// ---------------------------------------------------------------------------

pub open spec fn starts_with(s: Seq<char>, t: Seq<char>) -> bool {
    t.len() <= s.len() && s.take(t.len() as int) == t
}

pub open spec fn is_space(c: char) -> bool {
    c == ' ' || c == '\t'
}

pub open spec fn is_digit(c: char) -> bool {
    '0' <= c && c <= '9'
}

/// A character that may stand in a name.
pub open spec fn is_name_char(c: char) -> bool {
    ('a' <= c && c <= 'z') || ('A' <= c && c <= 'Z') || ('0' <= c && c <= '9') || c == '_'
}

/// The number of spaces and tabs that `s` starts with.
pub open spec fn space_run(s: Seq<char>) -> nat
    decreases s.len(),
{
    if s.len() > 0 && is_space(s[0]) {
        1 + space_run(s.drop_first())
    } else {
        0
    }
}

/// The number of decimal digits that `s` starts with.
pub open spec fn digit_run(s: Seq<char>) -> nat
    decreases s.len(),
{
    if s.len() > 0 && is_digit(s[0]) {
        1 + digit_run(s.drop_first())
    } else {
        0
    }
}

/// The number of name characters that `s` starts with.
pub open spec fn name_run(s: Seq<char>) -> nat
    decreases s.len(),
{
    if s.len() > 0 && is_name_char(s[0]) {
        1 + name_run(s.drop_first())
    } else {
        0
    }
}

/// The number that decimal digits stand for.
pub open spec fn digits_value(d: Seq<char>) -> nat
    decreases d.len(),
{
    if d.len() == 0 {
        0
    } else {
        digits_value(d.drop_last()) * 10 + (d.last() as nat - '0' as nat) as nat
    }
}

/// A number that fits a `usize` at the start of `s`: how many characters it
/// takes and its value.
pub open spec fn usize_item(s: Seq<char>) -> Option<(nat, nat)> {
    let d = digit_run(s);
    if d == 0 || digits_value(s.take(d as int)) > usize::MAX {
        None
    } else {
        Some((d, digits_value(s.take(d as int))))
    }
}

/// The numbers that follow at the start of `s`, each after one or more spaces,
/// as far as they go: their values and how many characters they take.
pub open spec fn more_items(s: Seq<char>) -> (Seq<nat>, nat)
    decreases s.len(),
{
    let sp = space_run(s);
    if sp == 0 || sp > s.len() {
        (Seq::empty(), 0)
    } else {
        match usize_item(s.skip(sp as int)) {
            None => (Seq::empty(), 0),
            Some((d, v)) => if sp + d > s.len() {
                (Seq::empty(), 0)
            } else {
                let (vs, c) = more_items(s.skip((sp + d) as int));
                (seq![v] + vs, sp + d + c)
            },
        }
    }
}

/// A line at the start of `s` that ends with `\n` or `\r\n`: how many characters
/// it takes with its ending, and its text without the ending.
#[verifier::opaque]
pub open spec fn line_item(s: Seq<char>) -> Option<(nat, Seq<char>)> {
    if exists|i: int| 0 <= i < s.len() && (s[i] == '\n' || s[i] == '\r') {
        let i = choose|i: int|
            0 <= i < s.len() && (s[i] == '\n' || s[i] == '\r') && forall|j: int|
                0 <= j < i ==> s[j] != '\n' && s[j] != '\r';
        if s[i] == '\n' {
            Some(((i + 1) as nat, s.take(i)))
        } else if i + 1 < s.len() && s[i + 1] == '\n' {
            Some(((i + 2) as nat, s.take(i)))
        } else {
            None
        }
    } else {
        None
    }
}

/// `n` lines at the start of `s`: how many characters they take and their texts.
#[verifier::opaque]
pub open spec fn lines_item(s: Seq<char>, n: nat) -> Option<(nat, Seq<Seq<char>>)>
    decreases n,
{
    if n == 0 {
        Some((0, Seq::empty()))
    } else {
        match line_item(s) {
            None => None,
            Some((c, l)) => if c > s.len() {
                None
            } else {
                match lines_item(s.skip(c as int), (n - 1) as nat) {
                    None => None,
                    Some((c2, ls)) => Some((c + c2, seq![l] + ls)),
                }
            },
        }
    }
}

/// Lines read before a result of reading further lines, `c` characters before it.
pub open spec fn after_lines(c: int, before: Seq<Seq<char>>, r: Option<(nat, Seq<Seq<char>>)>) -> Option<(nat, Seq<Seq<char>>)> {
    match r {
        None => None,
        Some((c2, ls)) => Some(((c + c2) as nat, before + ls)),
    }
}

proof fn lemma_lines_none(s: Seq<char>)
    ensures
        lines_item(s, 0) == Some((0nat, Seq::<Seq<char>>::empty())),
{
    reveal(lines_item);
}

proof fn lemma_lines_step(s: Seq<char>, n: nat)
    requires
        n > 0,
    ensures
        lines_item(s, n) == match line_item(s) {
            None => None,
            Some((c, l)) => if c > s.len() {
                None
            } else {
                after_lines(c as int, seq![l], lines_item(s.skip(c as int), (n - 1) as nat))
            },
        },
{
    reveal(lines_item);
}

proof fn lemma_after_lines_assoc(a: int, p: Seq<Seq<char>>, b: int, q: Seq<Seq<char>>, r: Option<(nat, Seq<Seq<char>>)>)
    requires
        a >= 0,
        b >= 0,
    ensures
        after_lines(a, p, after_lines(b, q, r)) == after_lines(a + b, p + q, r),
{
    match r {
        None => {},
        Some((c2, ls)) => {
            assert(p + (q + ls) =~= (p + q) + ls);
        },
    }
}

proof fn lemma_space_run_bound(s: Seq<char>)
    ensures
        space_run(s) <= s.len(),
        space_run(s) < s.len() ==> !is_space(s[space_run(s) as int]),
        forall|j: int| 0 <= j < space_run(s) ==> is_space(#[trigger] s[j]),
    decreases s.len(),
{
    if s.len() > 0 && is_space(s[0]) {
        lemma_space_run_bound(s.drop_first());
        assert forall|j: int| 0 <= j < space_run(s) implies is_space(#[trigger] s[j]) by {
            if j > 0 {
                assert(s[j] == s.drop_first()[j - 1]);
            }
        }
    }
}

proof fn lemma_digit_run_bound(s: Seq<char>)
    ensures
        digit_run(s) <= s.len(),
        digit_run(s) < s.len() ==> !is_digit(s[digit_run(s) as int]),
        forall|j: int| 0 <= j < digit_run(s) ==> is_digit(#[trigger] s[j]),
    decreases s.len(),
{
    if s.len() > 0 && is_digit(s[0]) {
        lemma_digit_run_bound(s.drop_first());
        assert forall|j: int| 0 <= j < digit_run(s) implies is_digit(#[trigger] s[j]) by {
            if j > 0 {
                assert(s[j] == s.drop_first()[j - 1]);
            }
        }
    }
}

proof fn lemma_name_run_bound(s: Seq<char>)
    ensures
        name_run(s) <= s.len(),
    decreases s.len(),
{
    if s.len() > 0 && is_name_char(s[0]) {
        lemma_name_run_bound(s.drop_first());
    }
}

/// Strips `t` from the start of `input`.
fn tag<'a>(input: &'a str, t: &str) -> (r: Option<&'a str>)
    ensures
        match r {
            Some(rest) => starts_with(input@, t@) && rest@ == input@.skip(t@.len() as int),
            None => !starts_with(input@, t@),
        },
{
    let n = input.unicode_len();
    let m = t.unicode_len();
    if m > n {
        return None;
    }
    let mut i: usize = 0;
    while i < m
        invariant
            n == input@.len(),
            m == t@.len(),
            m <= n,
            i <= m,
            forall|j: int| 0 <= j < i ==> input@[j] == t@[j],
        decreases m - i,
    {
        if input.get_char(i) != t.get_char(i) {
            proof {
                assert(input@.take(m as int)[i as int] != t@[i as int]);
            }
            return None;
        }
        i = i + 1;
    }
    proof {
        assert(input@.take(m as int) =~= t@);
    }
    Some(input.substring_char(m, n))
}

/// Counts the characters at the start of `input`, from `from` on, that are
/// spaces (`kind` 0), decimal digits (`kind` 1) or name characters (`kind` 2).
fn run_end(input: &str, from: usize, kind: u8) -> (r: usize)
    requires
        from <= input@.len(),
        kind <= 2,
    ensures
        r == from + if kind == 0 {
            space_run(input@.skip(from as int))
        } else if kind == 1 {
            digit_run(input@.skip(from as int))
        } else {
            name_run(input@.skip(from as int))
        },
        r <= input@.len(),
{
    let n = input.unicode_len();
    let mut i: usize = from;
    while i < n
        invariant
            n == input@.len(),
            from <= i <= n,
            kind <= 2,
            (if kind == 0 {
                space_run(input@.skip(from as int)) == (i - from) + space_run(input@.skip(i as int))
            } else if kind == 1 {
                digit_run(input@.skip(from as int)) == (i - from) + digit_run(input@.skip(i as int))
            } else {
                name_run(input@.skip(from as int)) == (i - from) + name_run(input@.skip(i as int))
            }),
        decreases n - i,
    {
        let c = input.get_char(i);
        let matches = if kind == 0 {
            c == ' ' || c == '\t'
        } else if kind == 1 {
            '0' <= c && c <= '9'
        } else {
            ('a' <= c && c <= 'z') || ('A' <= c && c <= 'Z') || ('0' <= c && c <= '9') || c == '_'
        };
        proof {
            let t = input@.skip(i as int);
            assert(t[0] == c);
            assert(t.drop_first() =~= input@.skip(i + 1));
        }
        if !matches {
            return i;
        }
        i = i + 1;
    }
    proof {
        assert(input@.skip(n as int) =~= Seq::<char>::empty());
    }
    i
}

/// Reads a number that fits a `usize` at `from`: where it ends and its value.
fn usize_at(input: &str, from: usize) -> (r: Option<(usize, usize)>)
    requires
        from <= input@.len(),
    ensures
        match r {
            Some((end, v)) => usize_item(input@.skip(from as int)) == Some(((end - from) as nat, v as nat))
                && from <= end <= input@.len(),
            None => usize_item(input@.skip(from as int)) is None,
        },
{
    let end = run_end(input, from, 1);
    if end == from {
        return None;
    }
    let ghost s = input@.skip(from as int);
    let ghost d = (end - from) as nat;
    proof {
        lemma_digit_run_bound(s);
    }
    let mut value: usize = 0;
    let mut i: usize = from;
    while i < end
        invariant
            from <= i <= end,
            end <= input@.len(),
            s == input@.skip(from as int),
            d == end - from,
            d == digit_run(s),
            forall|j: int| 0 <= j < d ==> is_digit(#[trigger] s[j]),
            value as nat == digits_value(s.take(i - from)),
        decreases end - i,
    {
        let c = input.get_char(i);
        proof {
            assert(s[i - from] == c);
            assert(is_digit(s[i - from]));
            let t = s.take(i - from + 1);
            assert(t.drop_last() =~= s.take(i - from));
            assert(t.last() == c);
        }
        let digit = (c as u32) - ('0' as u32);
        let next = match value.checked_mul(10) {
            Some(m) => m.checked_add(digit as usize),
            None => None,
        };
        match next {
            Some(v) => {
                value = v;
            },
            None => {
                proof {
                    lemma_digits_value_grows(s.take(d as int), (i - from + 1) as int);
                    assert(s.take(d as int).take(i - from + 1) =~= s.take(i - from + 1));
                }
                return None;
            },
        }
        i = i + 1;
    }
    proof {
        assert(s.take(d as int) =~= s.take(end - from));
    }
    Some((end, value))
}

/// A prefix of digits stands for no more than the digits it is a prefix of.
proof fn lemma_digits_value_grows(d: Seq<char>, k: int)
    requires
        0 <= k <= d.len(),
        forall|j: int| 0 <= j < d.len() ==> is_digit(#[trigger] d[j]),
    ensures
        digits_value(d.take(k)) <= digits_value(d),
    decreases d.len() - k,
{
    if k < d.len() {
        lemma_digits_value_grows(d, k + 1);
        let t = d.take(k + 1);
        assert(t.drop_last() =~= d.take(k));
        assert(is_digit(t.last()));
        assert(digits_value(t) == digits_value(d.take(k)) * 10 + (t.last() as nat - '0' as nat) as nat);
    } else {
        assert(d.take(k) =~= d);
    }
}

// ---------------------------------------------------------------------------
// Big numbers
// ---------------------------------------------------------------------------

/// The number that a non-empty string of decimal digits stands for, by
/// `num_bigint::BigInt::parse_bytes` with radix 10, as its sign and base-2^32
/// limbs (`to_u32_digits`). Such a string always parses, to its decimal value.
#[verifier::external_body]
fn parse_decimal(digits: &str) -> (r: Option<BigNum>)
    requires
        digits@.len() > 0,
        forall|j: int| 0 <= j < digits@.len() ==> is_digit(#[trigger] digits@[j]),
    ensures
        r is Some,
        r->0.value() == digits_value(digits@),
{
    match num_bigint::BigInt::parse_bytes(digits.as_bytes(), 10) {
        Some(b) => {
            let (sign, limbs) = b.to_u32_digits();
            let negative = match sign {
                num_bigint::Sign::Minus => true,
                _ => false,
            };
            Some(BigNum { negative, limbs })
        },
        None => None,
    }
}

// ---------------------------------------------------------------------------
// The header parsers
// ---------------------------------------------------------------------------

/// The text `tag`, one or more spaces, and what `rest` reads after them.
pub open spec fn after_tag_and_spaces(s: Seq<char>, tag: Seq<char>) -> Option<int> {
    if !starts_with(s, tag) {
        None
    } else {
        let sp = space_run(s.skip(tag.len() as int));
        if sp == 0 {
            None
        } else {
            Some((tag.len() + sp) as int)
        }
    }
}

/// `%%prime`, spaces, and decimal digits: the digits read and how far they go.
pub open spec fn prime_spec(s: Seq<char>) -> Option<(int, nat)> {
    match after_tag_and_spaces(s, "%%prime"@) {
        None => None,
        Some(k) => {
            let d = digit_run(s.skip(k));
            if d == 0 {
                None
            } else {
                Some((k + d, digits_value(s.skip(k).take(d as int))))
            }
        },
    }
}

/// Reads `tag` and the spaces after it; returns where what follows starts.
fn tag_and_spaces(input: &str, t: &str) -> (r: Option<usize>)
    ensures
        match r {
            Some(k) => after_tag_and_spaces(input@, t@) == Some(k as int) && k <= input@.len(),
            None => after_tag_and_spaces(input@, t@) is None,
        },
{
    match tag(input, t) {
        None => None,
        Some(_) => {
            let m = t.unicode_len();
            let k = run_end(input, m, 0);
            if k == m {
                None
            } else {
                Some(k)
            }
        },
    }
}

pub fn parse_prime(input: &str) -> (r: Result<(&str, BigNum), ParseError>)
    ensures
        match r {
            Ok((rest, n)) => prime_spec(input@) matches Some((end, v)) && rest@ == input@.skip(end)
                && n.value() == v,
            Err(_) => prime_spec(input@) is None,
        },
{
    let k = match tag_and_spaces(input, "%%prime") {
        Some(k) => k,
        None => {
            return Err(ParseError);
        },
    };
    let end = run_end(input, k, 1);
    if end == k {
        return Err(ParseError);
    }
    let n = input.unicode_len();
    let digits = input.substring_char(k, end);
    proof {
        lemma_digit_run_bound(input@.skip(k as int));
        assert(digits@ =~= input@.skip(k as int).take((end - k) as int));
        assert forall|j: int| 0 <= j < digits@.len() implies is_digit(#[trigger] digits@[j]) by {
            assert(digits@[j] == input@.skip(k as int)[j]);
        }
    }
    let value = match parse_decimal(digits) {
        Some(v) => v,
        None => {
            return Err(ParseError);
        },
    };
    Ok((input.substring_char(end, n), value))
}

pub open spec fn component_mode_spec(s: Seq<char>) -> Option<(int, ComponentCreationMode)> {
    if starts_with(s, "implicit"@) {
        Some(("implicit"@.len() as int, ComponentCreationMode::Implicit))
    } else if starts_with(s, "explicit"@) {
        Some(("explicit"@.len() as int, ComponentCreationMode::Explicit))
    } else {
        None
    }
}

pub fn parse_component_mode(input: &str) -> (r: Result<(&str, ComponentCreationMode), ParseError>)
    ensures
        match r {
            Ok((rest, m)) => component_mode_spec(input@) matches Some((end, v)) && rest@ == input@.skip(end) && m == v,
            Err(_) => component_mode_spec(input@) is None,
        },
{
    match tag(input, "implicit") {
        Some(rest) => {
            return Ok((rest, ComponentCreationMode::Implicit));
        },
        None => {},
    }
    match tag(input, "explicit") {
        Some(rest) => Ok((rest, ComponentCreationMode::Explicit)),
        None => Err(ParseError),
    }
}

/// `tag`, spaces, and a number that fits a `usize`: its value and how far it goes.
pub open spec fn tagged_usize_spec(s: Seq<char>, tag: Seq<char>) -> Option<(int, nat)> {
    match after_tag_and_spaces(s, tag) {
        None => None,
        Some(k) => match usize_item(s.skip(k)) {
            None => None,
            Some((d, v)) => Some((k + d, v)),
        },
    }
}

fn parse_tagged_usize<'a>(input: &'a str, t: &str) -> (r: Result<(&'a str, usize), ParseError>)
    ensures
        match r {
            Ok((rest, v)) => tagged_usize_spec(input@, t@) matches Some((end, w)) && rest@ == input@.skip(end)
                && v == w,
            Err(_) => tagged_usize_spec(input@, t@) is None,
        },
{
    let k = match tag_and_spaces(input, t) {
        Some(k) => k,
        None => {
            return Err(ParseError);
        },
    };
    match usize_at(input, k) {
        Some((end, v)) => {
            let n = input.unicode_len();
            Ok((input.substring_char(end, n), v))
        },
        None => Err(ParseError),
    }
}

pub fn parse_signal_memory(input: &str) -> (r: Result<(&str, usize), ParseError>)
    ensures
        match r {
            Ok((rest, v)) => tagged_usize_spec(input@, "%%signals"@) matches Some((end, w)) && rest@
                == input@.skip(end) && v == w,
            Err(_) => tagged_usize_spec(input@, "%%signals"@) is None,
        },
{
    parse_tagged_usize(input, "%%signals")
}

pub fn parse_components_heap(input: &str) -> (r: Result<(&str, usize), ParseError>)
    ensures
        match r {
            Ok((rest, v)) => tagged_usize_spec(input@, "%%components_heap"@) matches Some((end, w)) && rest@
                == input@.skip(end) && v == w,
            Err(_) => tagged_usize_spec(input@, "%%components_heap"@) is None,
        },
{
    parse_tagged_usize(input, "%%components_heap")
}

/// `%%start`, spaces, and a name: the name and how far it goes.
pub open spec fn start_spec(s: Seq<char>) -> Option<(int, Seq<char>)> {
    match after_tag_and_spaces(s, "%%start"@) {
        None => None,
        Some(k) => {
            let d = name_run(s.skip(k));
            if d == 0 {
                None
            } else {
                Some((k + d, s.skip(k).take(d as int)))
            }
        },
    }
}

/// Reads `%%start` and the name of the start template, made of letters, digits
/// and underscores.
pub fn parse_start(input: &str) -> (r: Result<(&str, String), ParseError>)
    ensures
        match r {
            Ok((rest, name)) => start_spec(input@) matches Some((end, v)) && rest@ == input@.skip(end)
                && name@ == v,
            Err(_) => start_spec(input@) is None,
        },
{
    let k = match tag_and_spaces(input, "%%start") {
        Some(k) => k,
        None => {
            return Err(ParseError);
        },
    };
    let end = run_end(input, k, 2);
    if end == k {
        return Err(ParseError);
    }
    let n = input.unicode_len();
    let name = input.substring_char(k, end).to_string();
    proof {
        assert(name@ =~= input@.skip(k as int).take((end - k) as int));
    }
    Ok((input.substring_char(end, n), name))
}

/// `%%components`, spaces, and a component creation mode.
pub open spec fn components_spec(s: Seq<char>) -> Option<(int, ComponentCreationMode)> {
    match after_tag_and_spaces(s, "%%components"@) {
        None => None,
        Some(k) => match component_mode_spec(s.skip(k)) {
            None => None,
            Some((d, m)) => Some((k + d, m)),
        },
    }
}

pub fn parse_components(input: &str) -> (r: Result<(&str, ComponentCreationMode), ParseError>)
    ensures
        match r {
            Ok((rest, m)) => components_spec(input@) matches Some((end, v)) && rest@ == input@.skip(end) && m == v,
            Err(_) => components_spec(input@) is None,
        },
{
    let k = match tag_and_spaces(input, "%%components") {
        Some(k) => k,
        None => {
            return Err(ParseError);
        },
    };
    let n = input.unicode_len();
    let after = input.substring_char(k, n);
    match parse_component_mode(after) {
        Ok((rest, m)) => {
            proof {
                assert(after@ =~= input@.skip(k as int));
                assert(rest@ =~= input@.skip(k as int + (after@.len() - rest@.len())));
            }
            Ok((rest, m))
        },
        Err(e) => Err(e),
    }
}

/// `%%witness`, spaces, and numbers separated by spaces: the numbers and how far they go.
pub open spec fn witness_spec(s: Seq<char>) -> Option<(int, Seq<nat>)> {
    match after_tag_and_spaces(s, "%%witness"@) {
        None => None,
        Some(k) => match usize_item(s.skip(k)) {
            None => None,
            Some((d, v)) => {
                let (vs, c) = more_items(s.skip(k + d));
                Some((k + d + c, seq![v] + vs))
            },
        },
    }
}

pub fn parse_witness(input: &str) -> (r: Result<(&str, Vec<usize>), ParseError>)
    ensures
        match r {
            Ok((rest, ws)) => witness_spec(input@) matches Some((end, vs)) && rest@ == input@.skip(end)
                && ws@.map_values(|w: usize| w as nat) == vs,
            Err(_) => witness_spec(input@) is None,
        },
{
    let k = match tag_and_spaces(input, "%%witness") {
        Some(k) => k,
        None => {
            return Err(ParseError);
        },
    };
    let (first_end, first) = match usize_at(input, k) {
        Some(p) => p,
        None => {
            return Err(ParseError);
        },
    };
    let n = input.unicode_len();
    let mut witness: Vec<usize> = Vec::new();
    witness.push(first);
    let mut pos: usize = first_end;
    let ghost start = first_end;
    proof {
        assert(witness@.map_values(|w: usize| w as nat) =~= seq![first as nat]);
    }
    loop
        invariant
            n == input@.len(),
            start <= pos <= n,
            witness@.len() >= 1,
            ({
                let (vs, c) = more_items(input@.skip(start as int));
                let (rs, rc) = more_items(input@.skip(pos as int));
                &&& vs == witness@.map_values(|w: usize| w as nat).drop_first() + rs
                &&& c == (pos - start) + rc
            }),
            witness@[0] == first,
        ensures
            start <= pos <= n,
            witness@.len() >= 1,
            witness@[0] == first,
            ({
                let (vs, c) = more_items(input@.skip(start as int));
                &&& vs == witness@.map_values(|w: usize| w as nat).drop_first()
                &&& c == pos - start
            }),
        decreases n - pos,
    {
        let sp_end = run_end(input, pos, 0);
        let ghost s = input@.skip(pos as int);
        proof {
            lemma_space_run_bound(s);
        }
        if sp_end == pos {
            proof {
                assert(more_items(s) == (Seq::<nat>::empty(), 0nat));
                assert(witness@.map_values(|w: usize| w as nat).drop_first() + Seq::<nat>::empty()
                    =~= witness@.map_values(|w: usize| w as nat).drop_first());
            }
            break;
        }
        match usize_at(input, sp_end) {
            None => {
                proof {
                    assert(s.skip((sp_end - pos) as int) =~= input@.skip(sp_end as int));
                    assert(more_items(s) == (Seq::<nat>::empty(), 0nat));
                    assert(witness@.map_values(|w: usize| w as nat).drop_first() + Seq::<nat>::empty()
                        =~= witness@.map_values(|w: usize| w as nat).drop_first());
                }
                break;
            },
            Some((end, v)) => {
                proof {
                    assert(s.skip((sp_end - pos) as int) =~= input@.skip(sp_end as int));
                    assert(s.skip((end - pos) as int) =~= input@.skip(end as int));
                }
                let ghost old_ws = witness@.map_values(|w: usize| w as nat);
                witness.push(v);
                proof {
                    assert(witness@.map_values(|w: usize| w as nat) =~= old_ws.push(v as nat));
                    let (rs, rc) = more_items(input@.skip(end as int));
                    assert(more_items(s) == (seq![v as nat] + rs, ((end - pos) + rc) as nat));
                    assert(old_ws.drop_first() + (seq![v as nat] + rs) =~= old_ws.push(v as nat).drop_first() + rs);
                }
                pos = end;
            },
        }
    }
    proof {
        assert(seq![first as nat] + witness@.map_values(|w: usize| w as nat).drop_first()
            =~= witness@.map_values(|w: usize| w as nat));
    }
    Ok((input.substring_char(pos, n), witness))
}

/// `%%input`, spaces, a count that fits a `usize`, a line ending, then as many
/// lines, each with its ending: the lines' texts and how far they go.
pub open spec fn inputs_spec(s: Seq<char>) -> Option<(int, Seq<Seq<char>>)> {
    match after_tag_and_spaces(s, "%%input"@) {
        None => None,
        Some(k) => match usize_item(s.skip(k)) {
            None => None,
            Some((d, count)) => {
                let e = k + d;
                let le: int = if starts_with(s.skip(e), "\n"@) {
                    1
                } else if starts_with(s.skip(e), "\r\n"@) {
                    2
                } else {
                    0
                };
                if le == 0 {
                    None
                } else {
                    match lines_item(s.skip(e + le), count) {
                        None => None,
                        Some((c, ls)) => Some((e + le + c, ls)),
                    }
                }
            },
        },
    }
}

/// Reads a line with its ending at `from`: where it ends with its ending, and its text.
fn line_at(input: &str, from: usize) -> (r: Option<(usize, String)>)
    requires
        from <= input@.len(),
    ensures
        match r {
            Some((end, l)) => line_item(input@.skip(from as int)) == Some(((end - from) as nat, l@))
                && from <= end <= input@.len(),
            None => line_item(input@.skip(from as int)) is None,
        },
{
    let n = input.unicode_len();
    let ghost s = input@.skip(from as int);
    proof {
        reveal(line_item);
    }
    let mut i: usize = from;
    while i < n
        invariant
            n == input@.len(),
            from <= i <= n,
            s == input@.skip(from as int),
            forall|j: int| 0 <= j < i - from ==> s[j] != '\n' && s[j] != '\r',
        decreases n - i,
    {
        let c = input.get_char(i);
        proof {
            assert(s[i - from] == c);
        }
        if c == '\n' || c == '\r' {
            let line = input.substring_char(from, i).to_string();
            proof {
                reveal(line_item);
                assert(line@ =~= s.take(i - from));
                let w = (i - from) as int;
                assert(0 <= w < s.len() && (s[w] == '\n' || s[w] == '\r'));
                let ch = choose|j: int|
                    0 <= j < s.len() && (s[j] == '\n' || s[j] == '\r') && forall|q: int|
                        0 <= q < j ==> s[q] != '\n' && s[q] != '\r';
                assert(ch == w) by {
                    if ch < w {
                        assert(s[ch] != '\n' && s[ch] != '\r');
                    }
                    if ch > w {
                        assert(s[w] != '\n' && s[w] != '\r');
                    }
                }
            }
            if c == '\n' {
                return Some((i + 1, line));
            }
            if i + 1 < n && input.get_char(i + 1) == '\n' {
                proof {
                    assert(s[i - from + 1] == input@[i + 1]);
                }
                return Some((i + 2, line));
            }
            proof {
                if i + 1 < n {
                    assert(s[i - from + 1] == input@[i + 1]);
                }
            }
            return None;
        }
        i = i + 1;
    }
    proof {
        reveal(line_item);
        assert(!exists|j: int| 0 <= j < s.len() && (s[j] == '\n' || s[j] == '\r'));
    }
    None
}

pub fn parse_inputs(input: &str) -> (r: Result<(&str, Vec<String>), ParseError>)
    ensures
        match r {
            Ok((rest, ls)) => inputs_spec(input@) matches Some((end, vs)) && rest@ == input@.skip(end)
                && ls@.map_values(|l: String| l@) == vs,
            Err(_) => inputs_spec(input@) is None,
        },
{
    let k = match tag_and_spaces(input, "%%input") {
        Some(k) => k,
        None => {
            return Err(ParseError);
        },
    };
    let (e, count) = match usize_at(input, k) {
        Some(p) => p,
        None => {
            return Err(ParseError);
        },
    };
    let n = input.unicode_len();
    let after = input.substring_char(e, n);
    proof {
        assert(after@ =~= input@.skip(e as int));
    }
    let le: usize = match tag(after, "\n") {
        Some(_) => 1,
        None => match tag(after, "\r\n") {
            Some(_) => 2,
            None => {
                return Err(ParseError);
            },
        },
    };
    proof {
        reveal_strlit("\n");
        reveal_strlit("\r\n");
    }
    let mut pos: usize = e + le;
    let ghost start = pos;
    proof {
        let s = input@;
        assert(after_tag_and_spaces(s, "%%input"@) == Some(k as int));
        assert(usize_item(s.skip(k as int)) == Some(((e - k) as nat, count as nat)));
        assert(s.skip(e as int) == after@);
        if le == 1 {
            assert(starts_with(s.skip(e as int), "\n"@));
        } else {
            assert(!starts_with(s.skip(e as int), "\n"@));
            assert(starts_with(s.skip(e as int), "\r\n"@));
        }
        assert(e + le == start);
        match lines_item(s.skip(start as int), count as nat) {
            None => {
                assert(inputs_spec(s) is None);
            },
            Some((c, ls)) => {
                assert(inputs_spec(s) == Some((start + c, ls)));
            },
        }
    }
    let mut lines: Vec<String> = Vec::new();
    let mut read: usize = 0;
    proof {
        assert(lines@.map_values(|l: String| l@) =~= Seq::<Seq<char>>::empty());
        match lines_item(input@.skip(start as int), count as nat) {
            None => {},
            Some((c2, ls)) => {
                assert(Seq::<Seq<char>>::empty() + ls =~= ls);
            },
        }
    }
    while read < count
        invariant
            n == input@.len(),
            start <= pos <= n,
            read <= count,
            inputs_spec(input@) is None <==> lines_item(input@.skip(start as int), count as nat) is None,
            lines_item(input@.skip(start as int), count as nat) matches Some((c, ls)) ==> inputs_spec(input@) == Some(
                (start + c, ls),
            ),
            lines_item(input@.skip(start as int), count as nat) == after_lines(
                pos - start,
                lines@.map_values(|l: String| l@),
                lines_item(input@.skip(pos as int), (count - read) as nat),
            ),
        decreases count - read,
    {
        proof {
            lemma_lines_step(input@.skip(pos as int), (count - read) as nat);
        }
        match line_at(input, pos) {
            None => {
                return Err(ParseError);
            },
            Some((end, l)) => {
                let ghost old_ls = lines@.map_values(|x: String| x@);
                proof {
                    assert(input@.skip(pos as int).skip((end - pos) as int) =~= input@.skip(end as int));
                    lemma_after_lines_assoc(
                        pos - start,
                        old_ls,
                        end - pos,
                        seq![l@],
                        lines_item(input@.skip(end as int), (count - read - 1) as nat),
                    );
                }
                lines.push(l);
                proof {
                    assert(lines@.map_values(|x: String| x@) =~= old_ls.push(l@));
                    assert(old_ls + seq![l@] =~= old_ls.push(l@));
                }
                pos = end;
                read = read + 1;
            },
        }
    }
    proof {
        lemma_lines_none(input@.skip(pos as int));
        assert(lines@.map_values(|l: String| l@) + Seq::<Seq<char>>::empty() =~= lines@.map_values(|l: String| l@));
    }
    Ok((input.substring_char(pos, n), lines))
}

} // verus!

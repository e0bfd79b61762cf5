//! A structured-text codec for whole automata, shaped like the persisted
//! document: `{"rules":{"names":[..],"rules":[[..],..]},"graph":{"nodes":[..]}}`.
//!
//! Both directions are verified, and parsing a serialized automaton is proved
//! to give back the original names, rules and per-node states and edges.
//! Everything works over sequences of characters; the surrounding application
//! turns files into character vectors and back.

use vstd::prelude::*;
use crate::automaton::Automaton;
use crate::graph::{Node, NodeModel};
use crate::graph::Graph;
use crate::rules::{Pattern, Rule, Ruleset, rule_lists, wildcard_per_state};

verus! {

// ----- decimal numbers -----

/// Whether `c` is a decimal digit.
pub open spec fn is_digit(c: char) -> bool {
    '0' <= c && c <= '9'
}

/// The digit character for a value below ten.
pub open spec fn digit_char(d: nat) -> char {
    if d == 0 {
        '0'
    } else if d == 1 {
        '1'
    } else if d == 2 {
        '2'
    } else if d == 3 {
        '3'
    } else if d == 4 {
        '4'
    } else if d == 5 {
        '5'
    } else if d == 6 {
        '6'
    } else if d == 7 {
        '7'
    } else if d == 8 {
        '8'
    } else {
        '9'
    }
}

/// The value of a digit character.
pub open spec fn digit_val(c: char) -> nat {
    (c as int - '0' as int) as nat
}

/// The canonical decimal digits of `n`, most significant first.
pub open spec fn dec_digits(n: nat) -> Seq<char>
    decreases n,
{
    if n < 10 {
        seq![digit_char(n)]
    } else {
        dec_digits(n / 10).push(digit_char(n % 10))
    }
}

/// The numeric value of a digit string.
pub open spec fn val_of(s: Seq<char>) -> nat
    decreases s.len(),
{
    if s.len() == 0 {
        0
    } else {
        val_of(s.drop_last()) * 10 + digit_val(s.last())
    }
}

/// A digit character reads back as its value.
proof fn lemma_digit_round_trip(d: nat)
    requires
        d < 10,
    ensures
        digit_val(digit_char(d)) == d,
{
    if d == 0 {
        assert(digit_val('0') == 0);
    } else if d == 1 {
        assert(digit_val('1') == 1);
    } else if d == 2 {
        assert(digit_val('2') == 2);
    } else if d == 3 {
        assert(digit_val('3') == 3);
    } else if d == 4 {
        assert(digit_val('4') == 4);
    } else if d == 5 {
        assert(digit_val('5') == 5);
    } else if d == 6 {
        assert(digit_val('6') == 6);
    } else if d == 7 {
        assert(digit_val('7') == 7);
    } else if d == 8 {
        assert(digit_val('8') == 8);
    } else {
        assert(digit_val('9') == 9);
    }
}

/// Reading back the canonical digits gives the number.
proof fn lemma_val_of_dec_digits(n: nat)
    ensures
        val_of(dec_digits(n)) == n,
    decreases n,
{
    if n < 10 {
        lemma_digit_round_trip(n);
        assert(dec_digits(n) == seq![digit_char(n)]);
        assert(dec_digits(n).drop_last() =~= Seq::<char>::empty());
        assert(dec_digits(n).last() == digit_char(n));
        assert(val_of(dec_digits(n)) == val_of(Seq::<char>::empty()) * 10 + digit_val(
            digit_char(n),
        ));
    } else {
        lemma_val_of_dec_digits(n / 10);
        lemma_digit_round_trip(n % 10);
        assert(dec_digits(n / 10).push(digit_char(n % 10)).drop_last() =~= dec_digits(n / 10));
        assert(dec_digits(n / 10).push(digit_char(n % 10)).last() == digit_char(n % 10));
        assert(val_of(dec_digits(n)) == val_of(dec_digits(n / 10)) * 10 + digit_val(
            digit_char(n % 10),
        ));
        assert(n / 10 * 10 + n % 10 == n);
    }
}

/// Canonical digits are digits, and there is at least one.
proof fn lemma_dec_digits_are_digits(n: nat)
    ensures
        dec_digits(n).len() >= 1,
        forall|i: int| 0 <= i < dec_digits(n).len() ==> is_digit(#[trigger] dec_digits(n)[i]),
    decreases n,
{
    if n >= 10 {
        lemma_dec_digits_are_digits(n / 10);
    }
}

/// Growing a digit string can only grow its value.
proof fn lemma_val_of_prefix(s: Seq<char>, t: Seq<char>)
    ensures
        val_of(s) <= val_of(s + t),
    decreases t.len(),
{
    if t.len() == 0 {
        assert(s + t =~= s);
    } else {
        lemma_val_of_prefix(s, t.drop_last());
        assert((s + t).drop_last() =~= s + t.drop_last());
    }
}

/// The end of the digit run starting at `pos`.
pub open spec fn digit_end(s: Seq<char>, pos: int) -> int
    decreases s.len() - pos,
{
    if 0 <= pos < s.len() && is_digit(s[pos]) {
        digit_end(s, pos + 1)
    } else {
        pos
    }
}

/// Parses an unsigned decimal number: the digit run at `pos`, rejected when
/// empty or when its value does not fit the target range.
pub open spec fn spec_parse_num(s: Seq<char>, pos: int, max: nat) -> Option<(nat, int)> {
    let end = digit_end(s, pos);
    if end == pos {
        None
    } else {
        let v = val_of(s.subrange(pos, end));
        if v > max {
            None
        } else {
            Some((v, end))
        }
    }
}

/// A fragment sits at `pos` of `s`.
pub open spec fn at(s: Seq<char>, pos: int, frag: Seq<char>) -> bool {
    0 <= pos && pos + frag.len() <= s.len() && s.subrange(pos, pos + frag.len() as int) == frag
}

/// Splitting an embedded concatenation into its two embedded halves.
proof fn lemma_at_split(s: Seq<char>, pos: int, a: Seq<char>, b: Seq<char>)
    requires
        at(s, pos, a + b),
    ensures
        at(s, pos, a),
        at(s, pos + a.len(), b),
{
    assert(s.subrange(pos, pos + a.len() as int) =~= a) by {
        assert forall|i: int| 0 <= i < a.len()
            implies s.subrange(pos, pos + a.len() as int)[i] == a[i] by {
            assert(s.subrange(pos, pos + (a + b).len() as int)[i] == (a + b)[i]);
        }
    }
    assert(s.subrange(pos + a.len(), pos + a.len() + b.len() as int) =~= b) by {
        assert forall|i: int| 0 <= i < b.len()
            implies s.subrange(pos + a.len(), pos + a.len() + b.len() as int)[i] == b[i] by {
            assert(s.subrange(pos, pos + (a + b).len() as int)[a.len() + i] == (a + b)[a.len()
                + i]);
        }
    }
}

/// The digit run over an embedded canonical number ends exactly at its end.
proof fn lemma_digit_end_of_run(s: Seq<char>, pos: int, end: int)
    requires
        0 <= pos <= end <= s.len(),
        forall|i: int| pos <= i < end ==> is_digit(#[trigger] s[i]),
        end == s.len() || !is_digit(s[end]),
    ensures
        digit_end(s, pos) == end,
    decreases end - pos,
{
    if pos < end {
        lemma_digit_end_of_run(s, pos + 1, end);
    }
}

/// A character of an embedded fragment, read off the whole sequence.
proof fn lemma_at_index(s: Seq<char>, pos: int, frag: Seq<char>, i: int)
    requires
        at(s, pos, frag),
        0 <= i < frag.len(),
    ensures
        s[pos + i] == frag[i],
{
    assert(s.subrange(pos, pos + frag.len() as int)[i] == frag[i]);
}

/// Two adjacent embedded fragments form one embedded concatenation.
proof fn lemma_at_join(s: Seq<char>, pos: int, a: Seq<char>, b: Seq<char>)
    requires
        at(s, pos, a),
        at(s, pos + a.len(), b),
    ensures
        at(s, pos, a + b),
{
    assert(s.subrange(pos, pos + (a + b).len() as int) =~= a + b) by {
        assert forall|i: int| 0 <= i < (a + b).len()
            implies s.subrange(pos, pos + (a + b).len() as int)[i] == (a + b)[i] by {
            if i < a.len() {
                lemma_at_index(s, pos, a, i);
            } else {
                lemma_at_index(s, pos + a.len(), b, i - a.len());
            }
        }
    }
}

/// Parsing at an embedded canonical number yields that number, provided the
/// next character (if any) is not a digit.
proof fn lemma_parse_num_at(s: Seq<char>, pos: int, n: nat, max: nat)
    requires
        n <= max,
        at(s, pos, dec_digits(n)),
        pos + dec_digits(n).len() == s.len() || !is_digit(s[pos + dec_digits(n).len()]),
    ensures
        spec_parse_num(s, pos, max) == Some((n, pos + dec_digits(n).len())),
{
    let frag = dec_digits(n);
    let end = pos + frag.len();
    lemma_dec_digits_are_digits(n);
    assert forall|i: int| pos <= i < end implies is_digit(#[trigger] s[i]) by {
        assert(s.subrange(pos, end) =~= frag);
        assert(s.subrange(pos, end)[i - pos] == s[i]);
        assert(is_digit(frag[i - pos]));
    }
    lemma_digit_end_of_run(s, pos, end);
    assert(s.subrange(pos, end) == frag);
    lemma_val_of_dec_digits(n);
}

// ----- strings -----

/// The escape of one character: quote and backslash are preceded by a
/// backslash, every other character stands for itself.
pub open spec fn esc_char(c: char) -> Seq<char> {
    if c == '"' || c == '\\' {
        seq!['\\', c]
    } else {
        seq![c]
    }
}

/// The encoded body of a string, character by character.
pub open spec fn enc_str_body(s: Seq<char>) -> Seq<char>
    decreases s.len(),
{
    if s.len() == 0 {
        Seq::empty()
    } else {
        esc_char(s[0]) + enc_str_body(s.drop_first())
    }
}

/// A quoted string.
pub open spec fn enc_string(s: Seq<char>) -> Seq<char> {
    seq!['"'] + enc_str_body(s) + seq!['"']
}

/// Parses a string body up to and including the closing quote, undoing
/// escapes.
pub open spec fn spec_parse_str_body(s: Seq<char>, pos: int) -> Option<(Seq<char>, int)>
    decreases s.len() - pos,
{
    if pos < 0 || pos >= s.len() {
        None
    } else if s[pos] == '"' {
        Some((Seq::empty(), pos + 1))
    } else if s[pos] == '\\' {
        if pos + 2 <= s.len() {
            match spec_parse_str_body(s, pos + 2) {
                Some(r) => Some((seq![s[pos + 1]] + r.0, r.1)),
                None => None,
            }
        } else {
            None
        }
    } else {
        match spec_parse_str_body(s, pos + 1) {
            Some(r) => Some((seq![s[pos]] + r.0, r.1)),
            None => None,
        }
    }
}

/// Parses a quoted string.
pub open spec fn spec_parse_string(s: Seq<char>, pos: int) -> Option<(Seq<char>, int)> {
    if 0 <= pos < s.len() && s[pos] == '"' {
        spec_parse_str_body(s, pos + 1)
    } else {
        None
    }
}

/// Parsing at an embedded encoded string body (with its closing quote) gives
/// back the original characters.
proof fn lemma_parse_str_body_at(s: Seq<char>, pos: int, name: Seq<char>)
    requires
        at(s, pos, enc_str_body(name) + seq!['"']),
    ensures
        spec_parse_str_body(s, pos) == Some((name, pos + enc_str_body(name).len() + 1)),
    decreases name.len(),
{
    if name.len() == 0 {
        lemma_at_index(s, pos, enc_str_body(name) + seq!['"'], 0);
        assert(s[pos] == '"');
    } else {
        let c = name[0];
        let tail = enc_str_body(name.drop_first()) + seq!['"'];
        assert(enc_str_body(name) + seq!['"'] =~= esc_char(c) + tail);
        lemma_at_split(s, pos, esc_char(c), tail);
        lemma_parse_str_body_at(s, pos + esc_char(c).len(), name.drop_first());
        if c == '"' || c == '\\' {
            lemma_at_index(s, pos, esc_char(c), 0);
            lemma_at_index(s, pos, esc_char(c), 1);
            assert(s[pos] == '\\');
            assert(s[pos + 1] == c);
            assert(pos + 2 <= s.len());
            assert(seq![c] + name.drop_first() =~= name);
        } else {
            lemma_at_index(s, pos, esc_char(c), 0);
            assert(s[pos] == c);
            assert(seq![c] + name.drop_first() =~= name);
        }
    }
}

/// Parsing at an embedded quoted string gives back the original characters.
proof fn lemma_parse_string_at(s: Seq<char>, pos: int, name: Seq<char>)
    requires
        at(s, pos, enc_string(name)),
    ensures
        spec_parse_string(s, pos) == Some((name, pos + enc_string(name).len())),
{
    assert(enc_string(name) =~= seq!['"'] + (enc_str_body(name) + seq!['"']));
    lemma_at_split(s, pos, seq!['"'], enc_str_body(name) + seq!['"']);
    lemma_at_index(s, pos, seq!['"'], 0);
    lemma_parse_str_body_at(s, pos + 1, name);
}

/// Consumes an exact fragment.
pub open spec fn spec_expect(s: Seq<char>, pos: int, frag: Seq<char>) -> Option<int> {
    if at(s, pos, frag) {
        Some(pos + frag.len() as int)
    } else {
        None
    }
}

/// Two fragments that differ at a position cannot sit at the same place.
proof fn lemma_at_conflict(s: Seq<char>, pos: int, f1: Seq<char>, f2: Seq<char>, d: int)
    requires
        at(s, pos, f1),
        0 <= d < f1.len(),
        d < f2.len(),
        f1[d] != f2[d],
    ensures
        !at(s, pos, f2),
{
    if at(s, pos, f2) {
        lemma_at_index(s, pos, f1, d);
        lemma_at_index(s, pos, f2, d);
    }
}

// ----- patterns -----

/// `{"Equal":` — the head of an `Equal` pattern object.
pub open spec fn head_equal() -> Seq<char> {
    seq!['{', '"', 'E', 'q', 'u', 'a', 'l', '"', ':']
}

/// `{"Gth":` — the head of a `Gth` pattern object.
pub open spec fn head_gth() -> Seq<char> {
    seq!['{', '"', 'G', 't', 'h', '"', ':']
}

/// `{"Lth":` — the head of an `Lth` pattern object.
pub open spec fn head_lth() -> Seq<char> {
    seq!['{', '"', 'L', 't', 'h', '"', ':']
}

/// `{"Geq":` — the head of a `Geq` pattern object.
pub open spec fn head_geq() -> Seq<char> {
    seq!['{', '"', 'G', 'e', 'q', '"', ':']
}

/// `{"Leq":` — the head of an `Leq` pattern object.
pub open spec fn head_leq() -> Seq<char> {
    seq!['{', '"', 'L', 'e', 'q', '"', ':']
}

/// `{"Or":[` — the head of an `Or` pattern object.
pub open spec fn head_or() -> Seq<char> {
    seq!['{', '"', 'O', 'r', '"', ':', '[']
}

/// `{"And":[` — the head of an `And` pattern object.
pub open spec fn head_and() -> Seq<char> {
    seq!['{', '"', 'A', 'n', 'd', '"', ':', '[']
}

/// `{"Not":` — the head of a `Not` pattern object.
pub open spec fn head_not() -> Seq<char> {
    seq!['{', '"', 'N', 'o', 't', '"', ':']
}

/// `"Wildcard"` — the bare tag of the wildcard pattern.
pub open spec fn lit_wildcard() -> Seq<char> {
    seq!['"', 'W', 'i', 'l', 'd', 'c', 'a', 'r', 'd', '"']
}

/// `{"state":` — the first key of a counting pattern's payload.
pub open spec fn key_state() -> Seq<char> {
    seq!['{', '"', 's', 't', 'a', 't', 'e', '"', ':']
}

/// `,"number":` — the second key of a counting pattern's payload.
pub open spec fn key_number() -> Seq<char> {
    seq![',', '"', 'n', 'u', 'm', 'b', 'e', 'r', '"', ':']
}

/// The payload of a counting pattern: `{"state":S,"number":N}` plus the
/// closing brace of the variant object.
pub open spec fn enc_count_body(state: u32, number: u32) -> Seq<char> {
    key_state() + dec_digits(state as nat) + key_number() + dec_digits(number as nat) + seq![
        '}',
        '}',
    ]
}

/// The encoding of a pattern, as a tagged variant.
pub open spec fn enc_pattern(p: Pattern) -> Seq<char>
    decreases p,
{
    match p {
        Pattern::Equal { state, number } => head_equal() + enc_count_body(state, number),
        Pattern::Gth { state, number } => head_gth() + enc_count_body(state, number),
        Pattern::Lth { state, number } => head_lth() + enc_count_body(state, number),
        Pattern::Geq { state, number } => head_geq() + enc_count_body(state, number),
        Pattern::Leq { state, number } => head_leq() + enc_count_body(state, number),
        Pattern::Or(a, b) => head_or() + enc_pattern(*a) + seq![','] + enc_pattern(*b) + seq![
            ']',
            '}',
        ],
        Pattern::And(a, b) => head_and() + enc_pattern(*a) + seq![','] + enc_pattern(*b) + seq![
            ']',
            '}',
        ],
        Pattern::Not(a) => head_not() + enc_pattern(*a) + seq!['}'],
        Pattern::Wildcard => lit_wildcard(),
    }
}

/// The nesting depth of a pattern, bounding the parser's recursion.
pub open spec fn height(p: Pattern) -> nat
    decreases p,
{
    match p {
        Pattern::Or(a, b) => 1 + if height(*a) >= height(*b) {
            height(*a)
        } else {
            height(*b)
        },
        Pattern::And(a, b) => 1 + if height(*a) >= height(*b) {
            height(*a)
        } else {
            height(*b)
        },
        Pattern::Not(a) => 1 + height(*a),
        _ => 1,
    }
}

/// Parses the payload of a counting pattern.
pub open spec fn spec_parse_count_body(s: Seq<char>, pos: int) -> Option<(u32, u32, int)> {
    match spec_expect(s, pos, key_state()) {
        Some(e1) => match spec_parse_num(s, e1, u32::MAX as nat) {
            Some(r1) => match spec_expect(s, r1.1, key_number()) {
                Some(e3) => match spec_parse_num(s, e3, u32::MAX as nat) {
                    Some(r2) => match spec_expect(s, r2.1, seq!['}', '}']) {
                        Some(e5) => Some((r1.0 as u32, r2.0 as u32, e5)),
                        None => None,
                    },
                    None => None,
                },
                None => None,
            },
            None => None,
        },
        None => None,
    }
}

/// Parses a pattern; `fuel` bounds the nesting the parser will follow.
pub open spec fn spec_parse_pattern(s: Seq<char>, pos: int, fuel: nat) -> Option<(Pattern, int)>
    decreases fuel,
{
    if fuel == 0 {
        None
    } else if at(s, pos, lit_wildcard()) {
        Some((Pattern::Wildcard, pos + lit_wildcard().len() as int))
    } else if at(s, pos, head_equal()) {
        match spec_parse_count_body(s, pos + head_equal().len() as int) {
            Some(r) => Some((Pattern::Equal { state: r.0, number: r.1 }, r.2)),
            None => None,
        }
    } else if at(s, pos, head_gth()) {
        match spec_parse_count_body(s, pos + head_gth().len() as int) {
            Some(r) => Some((Pattern::Gth { state: r.0, number: r.1 }, r.2)),
            None => None,
        }
    } else if at(s, pos, head_lth()) {
        match spec_parse_count_body(s, pos + head_lth().len() as int) {
            Some(r) => Some((Pattern::Lth { state: r.0, number: r.1 }, r.2)),
            None => None,
        }
    } else if at(s, pos, head_geq()) {
        match spec_parse_count_body(s, pos + head_geq().len() as int) {
            Some(r) => Some((Pattern::Geq { state: r.0, number: r.1 }, r.2)),
            None => None,
        }
    } else if at(s, pos, head_leq()) {
        match spec_parse_count_body(s, pos + head_leq().len() as int) {
            Some(r) => Some((Pattern::Leq { state: r.0, number: r.1 }, r.2)),
            None => None,
        }
    } else if at(s, pos, head_or()) {
        match spec_parse_pattern(s, pos + head_or().len() as int, (fuel - 1) as nat) {
            Some(ra) => match spec_expect(s, ra.1, seq![',']) {
                Some(e2) => match spec_parse_pattern(s, e2, (fuel - 1) as nat) {
                    Some(rb) => match spec_expect(s, rb.1, seq![']', '}']) {
                        Some(e4) => Some(
                            (Pattern::Or(Box::new(ra.0), Box::new(rb.0)), e4),
                        ),
                        None => None,
                    },
                    None => None,
                },
                None => None,
            },
            None => None,
        }
    } else if at(s, pos, head_and()) {
        match spec_parse_pattern(s, pos + head_and().len() as int, (fuel - 1) as nat) {
            Some(ra) => match spec_expect(s, ra.1, seq![',']) {
                Some(e2) => match spec_parse_pattern(s, e2, (fuel - 1) as nat) {
                    Some(rb) => match spec_expect(s, rb.1, seq![']', '}']) {
                        Some(e4) => Some(
                            (Pattern::And(Box::new(ra.0), Box::new(rb.0)), e4),
                        ),
                        None => None,
                    },
                    None => None,
                },
                None => None,
            },
            None => None,
        }
    } else if at(s, pos, head_not()) {
        match spec_parse_pattern(s, pos + head_not().len() as int, (fuel - 1) as nat) {
            Some(ra) => match spec_expect(s, ra.1, seq!['}']) {
                Some(e2) => Some((Pattern::Not(Box::new(ra.0)), e2)),
                None => None,
            },
            None => None,
        }
    } else {
        None
    }
}

/// Parsing at an embedded counting payload gives back both numbers.
proof fn lemma_parse_count_body_at(s: Seq<char>, pos: int, state: u32, number: u32)
    requires
        at(s, pos, enc_count_body(state, number)),
    ensures
        spec_parse_count_body(s, pos) == Some(
            (state, number, pos + enc_count_body(state, number).len()),
        ),
{
    let ds = dec_digits(state as nat);
    let dn = dec_digits(number as nat);
    assert(enc_count_body(state, number) =~= key_state() + (ds + (key_number() + (dn + seq![
        '}',
        '}',
    ]))));
    lemma_at_split(s, pos, key_state(), ds + (key_number() + (dn + seq!['}', '}'])));
    let p1 = pos + key_state().len();
    lemma_at_split(s, p1, ds, key_number() + (dn + seq!['}', '}']));
    let p2 = p1 + ds.len();
    lemma_at_split(s, p2, key_number(), dn + seq!['}', '}']);
    let p3 = p2 + key_number().len();
    lemma_at_split(s, p3, dn, seq!['}', '}']);
    let p4 = p3 + dn.len();
    lemma_at_index(s, p2, key_number(), 0);
    assert(s[p2] == ',');
    lemma_parse_num_at(s, p1, state as nat, u32::MAX as nat);
    lemma_at_index(s, p4, seq!['}', '}'], 0);
    assert(s[p4] == '}');
    lemma_parse_num_at(s, p3, number as nat, u32::MAX as nat);
}

/// Parsing at an embedded encoded pattern, with enough fuel for its nesting,
/// gives back the pattern.
#[verifier::rlimit(100)]
#[verifier::spinoff_prover]
proof fn lemma_parse_pattern_at(s: Seq<char>, pos: int, p: Pattern, fuel: nat)
    requires
        at(s, pos, enc_pattern(p)),
        fuel >= height(p),
    ensures
        spec_parse_pattern(s, pos, fuel) == Some((p, pos + enc_pattern(p).len())),
    decreases p,
{
    match p {
        Pattern::Wildcard => {
            lemma_at_split(s, pos, lit_wildcard(), Seq::empty());
            assert(at(s, pos, lit_wildcard())) by {
                assert(enc_pattern(p) == lit_wildcard());
            }
        }
        Pattern::Equal { state, number } => {
            lemma_at_split(s, pos, head_equal(), enc_count_body(state, number));
            lemma_at_conflict(s, pos, head_equal(), lit_wildcard(), 0);
            lemma_parse_count_body_at(s, pos + head_equal().len(), state, number);
        }
        Pattern::Gth { state, number } => {
            lemma_at_split(s, pos, head_gth(), enc_count_body(state, number));
            lemma_at_conflict(s, pos, head_gth(), lit_wildcard(), 0);
            lemma_at_conflict(s, pos, head_gth(), head_equal(), 2);
            lemma_parse_count_body_at(s, pos + head_gth().len(), state, number);
        }
        Pattern::Lth { state, number } => {
            lemma_at_split(s, pos, head_lth(), enc_count_body(state, number));
            lemma_at_conflict(s, pos, head_lth(), lit_wildcard(), 0);
            lemma_at_conflict(s, pos, head_lth(), head_equal(), 2);
            lemma_at_conflict(s, pos, head_lth(), head_gth(), 2);
            lemma_parse_count_body_at(s, pos + head_lth().len(), state, number);
        }
        Pattern::Geq { state, number } => {
            lemma_at_split(s, pos, head_geq(), enc_count_body(state, number));
            lemma_at_conflict(s, pos, head_geq(), lit_wildcard(), 0);
            lemma_at_conflict(s, pos, head_geq(), head_equal(), 2);
            lemma_at_conflict(s, pos, head_geq(), head_gth(), 3);
            lemma_at_conflict(s, pos, head_geq(), head_lth(), 2);
            lemma_parse_count_body_at(s, pos + head_geq().len(), state, number);
        }
        Pattern::Leq { state, number } => {
            lemma_at_split(s, pos, head_leq(), enc_count_body(state, number));
            lemma_at_conflict(s, pos, head_leq(), lit_wildcard(), 0);
            lemma_at_conflict(s, pos, head_leq(), head_equal(), 2);
            lemma_at_conflict(s, pos, head_leq(), head_gth(), 2);
            lemma_at_conflict(s, pos, head_leq(), head_lth(), 3);
            lemma_at_conflict(s, pos, head_leq(), head_geq(), 2);
            lemma_parse_count_body_at(s, pos + head_leq().len(), state, number);
        }
        Pattern::Or(a, b) => {
            let ea = enc_pattern(*a);
            let eb = enc_pattern(*b);
            assert(enc_pattern(p) =~= head_or() + (ea + (seq![','] + (eb + seq![']', '}']))));
            lemma_at_split(s, pos, head_or(), ea + (seq![','] + (eb + seq![']', '}'])));
            lemma_at_conflict(s, pos, head_or(), lit_wildcard(), 0);
            lemma_at_conflict(s, pos, head_or(), head_equal(), 2);
            lemma_at_conflict(s, pos, head_or(), head_gth(), 2);
            lemma_at_conflict(s, pos, head_or(), head_lth(), 2);
            lemma_at_conflict(s, pos, head_or(), head_geq(), 2);
            lemma_at_conflict(s, pos, head_or(), head_leq(), 2);
            let p1 = pos + head_or().len();
            lemma_at_split(s, p1, ea, seq![','] + (eb + seq![']', '}']));
            let p2 = p1 + ea.len();
            lemma_at_split(s, p2, seq![','], eb + seq![']', '}']);
            let p3 = p2 + 1;
            lemma_at_split(s, p3, eb, seq![']', '}']);
            let p4 = p3 + eb.len();
            lemma_parse_pattern_at(s, p1, *a, (fuel - 1) as nat);
            lemma_parse_pattern_at(s, p3, *b, (fuel - 1) as nat);
        }
        Pattern::And(a, b) => {
            let ea = enc_pattern(*a);
            let eb = enc_pattern(*b);
            assert(enc_pattern(p) =~= head_and() + (ea + (seq![','] + (eb + seq![']', '}']))));
            lemma_at_split(s, pos, head_and(), ea + (seq![','] + (eb + seq![']', '}'])));
            lemma_at_conflict(s, pos, head_and(), lit_wildcard(), 0);
            lemma_at_conflict(s, pos, head_and(), head_equal(), 2);
            lemma_at_conflict(s, pos, head_and(), head_gth(), 2);
            lemma_at_conflict(s, pos, head_and(), head_lth(), 2);
            lemma_at_conflict(s, pos, head_and(), head_geq(), 2);
            lemma_at_conflict(s, pos, head_and(), head_leq(), 2);
            lemma_at_conflict(s, pos, head_and(), head_or(), 2);
            let p1 = pos + head_and().len();
            lemma_at_split(s, p1, ea, seq![','] + (eb + seq![']', '}']));
            let p2 = p1 + ea.len();
            lemma_at_split(s, p2, seq![','], eb + seq![']', '}']);
            let p3 = p2 + 1;
            lemma_at_split(s, p3, eb, seq![']', '}']);
            lemma_parse_pattern_at(s, p1, *a, (fuel - 1) as nat);
            lemma_parse_pattern_at(s, p3, *b, (fuel - 1) as nat);
        }
        Pattern::Not(a) => {
            let ea = enc_pattern(*a);
            assert(enc_pattern(p) =~= head_not() + (ea + seq!['}']));
            lemma_at_split(s, pos, head_not(), ea + seq!['}']);
            lemma_at_conflict(s, pos, head_not(), lit_wildcard(), 0);
            lemma_at_conflict(s, pos, head_not(), head_equal(), 2);
            lemma_at_conflict(s, pos, head_not(), head_gth(), 2);
            lemma_at_conflict(s, pos, head_not(), head_lth(), 2);
            lemma_at_conflict(s, pos, head_not(), head_geq(), 2);
            lemma_at_conflict(s, pos, head_not(), head_leq(), 2);
            lemma_at_conflict(s, pos, head_not(), head_or(), 2);
            lemma_at_conflict(s, pos, head_not(), head_and(), 2);
            let p1 = pos + head_not().len();
            lemma_at_split(s, p1, ea, seq!['}']);
            lemma_parse_pattern_at(s, p1, *a, (fuel - 1) as nat);
        }
    }
}

// ----- rules and rule lists -----

/// `{"pattern":` — the first key of a rule object.
pub open spec fn key_pattern() -> Seq<char> {
    seq!['{', '"', 'p', 'a', 't', 't', 'e', 'r', 'n', '"', ':']
}

/// `,"replacement":` — the second key of a rule object.
pub open spec fn key_replacement() -> Seq<char> {
    seq![',', '"', 'r', 'e', 'p', 'l', 'a', 'c', 'e', 'm', 'e', 'n', 't', '"', ':']
}

/// The encoding of one rule.
pub open spec fn enc_rule(r: Rule) -> Seq<char> {
    key_pattern() + enc_pattern(r.pattern) + key_replacement() + dec_digits(
        r.replacement as nat,
    ) + seq!['}']
}

/// The comma-separated encodings of the rules after the first.
pub open spec fn enc_rule_rest(list: Seq<Rule>) -> Seq<char>
    decreases list.len(),
{
    if list.len() == 0 {
        Seq::empty()
    } else {
        seq![','] + enc_rule(list[0]) + enc_rule_rest(list.drop_first())
    }
}

/// The contents of a rule array, commas between the rules, no brackets.
pub open spec fn enc_rule_items(list: Seq<Rule>) -> Seq<char> {
    if list.len() == 0 {
        Seq::empty()
    } else {
        enc_rule(list[0]) + enc_rule_rest(list.drop_first())
    }
}

/// Parses one rule object.
pub open spec fn spec_parse_rule(s: Seq<char>, pos: int, fuel: nat) -> Option<(Rule, int)> {
    match spec_expect(s, pos, key_pattern()) {
        Some(e1) => match spec_parse_pattern(s, e1, fuel) {
            Some(rp) => match spec_expect(s, rp.1, key_replacement()) {
                Some(e3) => match spec_parse_num(s, e3, u32::MAX as nat) {
                    Some(rn) => match spec_expect(s, rn.1, seq!['}']) {
                        Some(e5) => Some(
                            (Rule { pattern: rp.0, replacement: rn.0 as u32 }, e5),
                        ),
                        None => None,
                    },
                    None => None,
                },
                None => None,
            },
            None => None,
        },
        None => None,
    }
}

/// Parses `]`, or `,` followed by more rules, after a rule.
pub open spec fn spec_parse_rule_rest(s: Seq<char>, pos: int, fuel: nat) -> Option<
    (Seq<Rule>, int),
>
    decreases fuel,
{
    if fuel == 0 {
        None
    } else if at(s, pos, seq![']']) {
        Some((Seq::empty(), pos + 1))
    } else if at(s, pos, seq![',']) {
        match spec_parse_rule(s, pos + 1, (fuel - 1) as nat) {
            Some(rr) => match spec_parse_rule_rest(s, rr.1, (fuel - 1) as nat) {
                Some(rs) => Some((seq![rr.0] + rs.0, rs.1)),
                None => None,
            },
            None => None,
        }
    } else {
        None
    }
}

/// Parses a whole rule array from just after its `[`, consuming the `]`.
pub open spec fn spec_parse_rule_region(s: Seq<char>, pos: int, fuel: nat) -> Option<
    (Seq<Rule>, int),
> {
    if at(s, pos, seq![']']) {
        Some((Seq::empty(), pos + 1))
    } else {
        match spec_parse_rule(s, pos, fuel) {
            Some(rr) => match spec_parse_rule_rest(s, rr.1, fuel) {
                Some(rs) => Some((seq![rr.0] + rs.0, rs.1)),
                None => None,
            },
            None => None,
        }
    }
}

/// A pattern's nesting depth never exceeds its encoded length.
proof fn lemma_height_le_enc(p: Pattern)
    ensures
        height(p) <= enc_pattern(p).len(),
    decreases p,
{
    match p {
        Pattern::Or(a, b) => {
            lemma_height_le_enc(*a);
            lemma_height_le_enc(*b);
        }
        Pattern::And(a, b) => {
            lemma_height_le_enc(*a);
            lemma_height_le_enc(*b);
        }
        Pattern::Not(a) => {
            lemma_height_le_enc(*a);
        }
        _ => {}
    }
}

/// Parsing at an embedded encoded rule gives back the rule.
#[verifier::rlimit(100)]
#[verifier::spinoff_prover]
proof fn lemma_parse_rule_at(s: Seq<char>, pos: int, r: Rule, fuel: nat)
    requires
        at(s, pos, enc_rule(r)),
        fuel >= enc_pattern(r.pattern).len(),
    ensures
        spec_parse_rule(s, pos, fuel) == Some((r, pos + enc_rule(r).len())),
{
    let ep = enc_pattern(r.pattern);
    let dn = dec_digits(r.replacement as nat);
    assert(enc_rule(r) =~= key_pattern() + (ep + (key_replacement() + (dn + seq!['}']))));
    lemma_at_split(s, pos, key_pattern(), ep + (key_replacement() + (dn + seq!['}'])));
    let p1 = pos + key_pattern().len();
    lemma_at_split(s, p1, ep, key_replacement() + (dn + seq!['}']));
    let p2 = p1 + ep.len();
    lemma_at_split(s, p2, key_replacement(), dn + seq!['}']);
    let p3 = p2 + key_replacement().len();
    lemma_at_split(s, p3, dn, seq!['}']);
    let p4 = p3 + dn.len();
    lemma_height_le_enc(r.pattern);
    lemma_parse_pattern_at(s, p1, r.pattern, fuel);
    lemma_at_index(s, p4, seq!['}'], 0);
    lemma_parse_num_at(s, p3, r.replacement as nat, u32::MAX as nat);
}

/// Parsing at the embedded tail of a rule array gives back the listed rules.
#[verifier::rlimit(100)]
#[verifier::spinoff_prover]
proof fn lemma_parse_rule_rest_at(s: Seq<char>, pos: int, list: Seq<Rule>, fuel: nat)
    requires
        at(s, pos, enc_rule_rest(list) + seq![']']),
        fuel >= enc_rule_rest(list).len() + 1,
    ensures
        spec_parse_rule_rest(s, pos, fuel) == Some(
            (list, pos + enc_rule_rest(list).len() + 1),
        ),
    decreases list.len(),
{
    if list.len() == 0 {
        lemma_at_index(s, pos, enc_rule_rest(list) + seq![']'], 0);
        assert(at(s, pos, seq![']'])) by {
            assert((enc_rule_rest(list) + seq![']'])[0] == ']');
            assert(s.subrange(pos, pos + 1) =~= seq![']']);
        }
    } else {
        let r0 = list[0];
        let tail = enc_rule_rest(list.drop_first());
        assert(enc_rule_rest(list) + seq![']'] =~= seq![','] + (enc_rule(r0) + (tail + seq![
            ']',
        ])));
        lemma_at_split(s, pos, seq![','], enc_rule(r0) + (tail + seq![']']));
        lemma_at_index(s, pos, seq![','], 0);
        assert(!at(s, pos, seq![']'])) by {
            lemma_at_conflict(s, pos, seq![','], seq![']'], 0);
        }
        let p1 = pos + 1;
        lemma_at_split(s, p1, enc_rule(r0), tail + seq![']']);
        let p2 = p1 + enc_rule(r0).len();
        lemma_parse_rule_at(s, p1, r0, (fuel - 1) as nat);
        lemma_parse_rule_rest_at(s, p2, list.drop_first(), (fuel - 1) as nat);
        assert(seq![r0] + list.drop_first() =~= list);
    }
}

/// Parsing at an embedded rule array body (with its `]`) gives the rules.
#[verifier::rlimit(100)]
#[verifier::spinoff_prover]
proof fn lemma_parse_rule_region_at(s: Seq<char>, pos: int, list: Seq<Rule>, fuel: nat)
    requires
        at(s, pos, enc_rule_items(list) + seq![']']),
        fuel >= enc_rule_items(list).len() + 1,
    ensures
        spec_parse_rule_region(s, pos, fuel) == Some(
            (list, pos + enc_rule_items(list).len() + 1),
        ),
{
    if list.len() == 0 {
        assert(at(s, pos, seq![']'])) by {
            assert(enc_rule_items(list) + seq![']'] =~= seq![']']);
        }
    } else {
        let r0 = list[0];
        let tail = enc_rule_rest(list.drop_first());
        assert(enc_rule_items(list) + seq![']'] =~= enc_rule(r0) + (tail + seq![']']));
        lemma_at_split(s, pos, enc_rule(r0), tail + seq![']']);
        lemma_at_index(s, pos, enc_rule(r0), 0);
        assert(!at(s, pos, seq![']'])) by {
            lemma_at_conflict(s, pos, enc_rule(r0), seq![']'], 0);
        }
        let p1 = pos + enc_rule(r0).len();
        lemma_parse_rule_at(s, pos, r0, fuel);
        lemma_parse_rule_rest_at(s, p1, list.drop_first(), fuel);
        assert(seq![r0] + list.drop_first() =~= list);
    }
}
// ----- name lists -----

/// The comma-separated encodings of the names after the first.
pub open spec fn enc_name_rest(names: Seq<Seq<char>>) -> Seq<char>
    decreases names.len(),
{
    if names.len() == 0 {
        Seq::empty()
    } else {
        seq![','] + enc_string(names[0]) + enc_name_rest(names.drop_first())
    }
}

/// The contents of a name array, commas between the names, no brackets.
pub open spec fn enc_name_items(names: Seq<Seq<char>>) -> Seq<char> {
    if names.len() == 0 {
        Seq::empty()
    } else {
        enc_string(names[0]) + enc_name_rest(names.drop_first())
    }
}

/// Parses `]`, or `,` followed by more names, after a name.
pub open spec fn spec_parse_name_rest(s: Seq<char>, pos: int, fuel: nat) -> Option<
    (Seq<Seq<char>>, int),
>
    decreases fuel,
{
    if fuel == 0 {
        None
    } else if at(s, pos, seq![']']) {
        Some((Seq::empty(), pos + 1))
    } else if at(s, pos, seq![',']) {
        match spec_parse_string(s, pos + 1) {
            Some(rr) => match spec_parse_name_rest(s, rr.1, (fuel - 1) as nat) {
                Some(rs) => Some((seq![rr.0] + rs.0, rs.1)),
                None => None,
            },
            None => None,
        }
    } else {
        None
    }
}

/// Parses a whole name array from just after its `[`, consuming the `]`.
pub open spec fn spec_parse_name_region(s: Seq<char>, pos: int, fuel: nat) -> Option<
    (Seq<Seq<char>>, int),
> {
    if at(s, pos, seq![']']) {
        Some((Seq::empty(), pos + 1))
    } else {
        match spec_parse_string(s, pos) {
            Some(rr) => match spec_parse_name_rest(s, rr.1, fuel) {
                Some(rs) => Some((seq![rr.0] + rs.0, rs.1)),
                None => None,
            },
            None => None,
        }
    }
}

/// Parsing at the embedded tail of a name array gives back the names.
#[verifier::rlimit(100)]
#[verifier::spinoff_prover]
proof fn lemma_parse_name_rest_at(s: Seq<char>, pos: int, names: Seq<Seq<char>>, fuel: nat)
    requires
        at(s, pos, enc_name_rest(names) + seq![']']),
        fuel >= names.len() + 1,
    ensures
        spec_parse_name_rest(s, pos, fuel) == Some(
            (names, pos + enc_name_rest(names).len() + 1),
        ),
    decreases names.len(),
{
    if names.len() == 0 {
        assert(at(s, pos, seq![']'])) by {
            assert(enc_name_rest(names) + seq![']'] =~= seq![']']);
        }
    } else {
        let n0 = names[0];
        let tail = enc_name_rest(names.drop_first());
        assert(enc_name_rest(names) + seq![']'] =~= seq![','] + (enc_string(n0) + (tail + seq![
            ']',
        ])));
        lemma_at_split(s, pos, seq![','], enc_string(n0) + (tail + seq![']']));
        lemma_at_index(s, pos, seq![','], 0);
        assert(!at(s, pos, seq![']'])) by {
            lemma_at_conflict(s, pos, seq![','], seq![']'], 0);
        }
        let p1 = pos + 1;
        lemma_at_split(s, p1, enc_string(n0), tail + seq![']']);
        let p2 = p1 + enc_string(n0).len();
        lemma_parse_string_at(s, p1, n0);
        lemma_parse_name_rest_at(s, p2, names.drop_first(), (fuel - 1) as nat);
        assert(seq![n0] + names.drop_first() =~= names);
    }
}

/// Parsing at an embedded name array body (with its `]`) gives the names.
#[verifier::rlimit(100)]
#[verifier::spinoff_prover]
proof fn lemma_parse_name_region_at(s: Seq<char>, pos: int, names: Seq<Seq<char>>, fuel: nat)
    requires
        at(s, pos, enc_name_items(names) + seq![']']),
        fuel >= names.len() + 1,
    ensures
        spec_parse_name_region(s, pos, fuel) == Some(
            (names, pos + enc_name_items(names).len() + 1),
        ),
{
    if names.len() == 0 {
        assert(at(s, pos, seq![']'])) by {
            assert(enc_name_items(names) + seq![']'] =~= seq![']']);
        }
    } else {
        let n0 = names[0];
        let tail = enc_name_rest(names.drop_first());
        assert(enc_name_items(names) + seq![']'] =~= enc_string(n0) + (tail + seq![']']));
        lemma_at_split(s, pos, enc_string(n0), tail + seq![']']);
        lemma_at_index(s, pos, enc_string(n0), 0);
        assert(!at(s, pos, seq![']'])) by {
            lemma_at_conflict(s, pos, enc_string(n0), seq![']'], 0);
        }
        let p1 = pos + enc_string(n0).len();
        lemma_parse_string_at(s, pos, n0);
        lemma_parse_name_rest_at(s, p1, names.drop_first(), fuel);
        assert(seq![n0] + names.drop_first() =~= names);
    }
}

// ----- edge lists -----

/// The comma-separated encodings of the edge targets after the first.
pub open spec fn enc_edge_rest(edges: Seq<usize>) -> Seq<char>
    decreases edges.len(),
{
    if edges.len() == 0 {
        Seq::empty()
    } else {
        seq![','] + dec_digits(edges[0] as nat) + enc_edge_rest(edges.drop_first())
    }
}

/// The contents of an edge array, commas between the targets, no brackets.
pub open spec fn enc_edge_items(edges: Seq<usize>) -> Seq<char> {
    if edges.len() == 0 {
        Seq::empty()
    } else {
        dec_digits(edges[0] as nat) + enc_edge_rest(edges.drop_first())
    }
}

/// Parses `]`, or `,` followed by more edge targets, after a target.
pub open spec fn spec_parse_edge_rest(s: Seq<char>, pos: int, fuel: nat) -> Option<
    (Seq<usize>, int),
>
    decreases fuel,
{
    if fuel == 0 {
        None
    } else if at(s, pos, seq![']']) {
        Some((Seq::empty(), pos + 1))
    } else if at(s, pos, seq![',']) {
        match spec_parse_num(s, pos + 1, usize::MAX as nat) {
            Some(rr) => match spec_parse_edge_rest(s, rr.1, (fuel - 1) as nat) {
                Some(rs) => Some((seq![rr.0 as usize] + rs.0, rs.1)),
                None => None,
            },
            None => None,
        }
    } else {
        None
    }
}

/// Parses a whole edge array from just after its `[`, consuming the `]`.
pub open spec fn spec_parse_edge_region(s: Seq<char>, pos: int, fuel: nat) -> Option<
    (Seq<usize>, int),
> {
    if at(s, pos, seq![']']) {
        Some((Seq::empty(), pos + 1))
    } else {
        match spec_parse_num(s, pos, usize::MAX as nat) {
            Some(rr) => match spec_parse_edge_rest(s, rr.1, fuel) {
                Some(rs) => Some((seq![rr.0 as usize] + rs.0, rs.1)),
                None => None,
            },
            None => None,
        }
    }
}

/// Parsing at the embedded tail of an edge array gives back the targets.
#[verifier::rlimit(100)]
#[verifier::spinoff_prover]
proof fn lemma_parse_edge_rest_at(s: Seq<char>, pos: int, edges: Seq<usize>, fuel: nat)
    requires
        at(s, pos, enc_edge_rest(edges) + seq![']']),
        fuel >= edges.len() + 1,
    ensures
        spec_parse_edge_rest(s, pos, fuel) == Some(
            (edges, pos + enc_edge_rest(edges).len() + 1),
        ),
    decreases edges.len(),
{
    if edges.len() == 0 {
        assert(at(s, pos, seq![']'])) by {
            assert(enc_edge_rest(edges) + seq![']'] =~= seq![']']);
        }
    } else {
        let e0 = edges[0];
        let d0 = dec_digits(e0 as nat);
        let tail = enc_edge_rest(edges.drop_first());
        assert(enc_edge_rest(edges) + seq![']'] =~= seq![','] + (d0 + (tail + seq![']'])));
        lemma_at_split(s, pos, seq![','], d0 + (tail + seq![']']));
        lemma_at_index(s, pos, seq![','], 0);
        assert(!at(s, pos, seq![']'])) by {
            lemma_at_conflict(s, pos, seq![','], seq![']'], 0);
        }
        let p1 = pos + 1;
        lemma_at_split(s, p1, d0, tail + seq![']']);
        let p2 = p1 + d0.len();
        assert(!is_digit(s[p2])) by {
            if edges.drop_first().len() == 0 {
                assert(tail + seq![']'] =~= seq![']']);
                lemma_at_index(s, p2, seq![']'], 0);
            } else {
                lemma_at_index(s, p2, tail + seq![']'], 0);
                assert((tail + seq![']'])[0] == ',');
            }
        }
        lemma_parse_num_at(s, p1, e0 as nat, usize::MAX as nat);
        lemma_parse_edge_rest_at(s, p2, edges.drop_first(), (fuel - 1) as nat);
        assert(seq![e0] + edges.drop_first() =~= edges);
    }
}

/// Parsing at an embedded edge array body (with its `]`) gives the targets.
#[verifier::rlimit(100)]
#[verifier::spinoff_prover]
proof fn lemma_parse_edge_region_at(s: Seq<char>, pos: int, edges: Seq<usize>, fuel: nat)
    requires
        at(s, pos, enc_edge_items(edges) + seq![']']),
        fuel >= edges.len() + 1,
    ensures
        spec_parse_edge_region(s, pos, fuel) == Some(
            (edges, pos + enc_edge_items(edges).len() + 1),
        ),
{
    if edges.len() == 0 {
        assert(at(s, pos, seq![']'])) by {
            assert(enc_edge_items(edges) + seq![']'] =~= seq![']']);
        }
    } else {
        let e0 = edges[0];
        let d0 = dec_digits(e0 as nat);
        let tail = enc_edge_rest(edges.drop_first());
        assert(enc_edge_items(edges) + seq![']'] =~= d0 + (tail + seq![']']));
        lemma_at_split(s, pos, d0, tail + seq![']']);
        lemma_dec_digits_are_digits(e0 as nat);
        lemma_at_index(s, pos, d0, 0);
        assert(!at(s, pos, seq![']'])) by {
            lemma_at_conflict(s, pos, d0, seq![']'], 0);
        }
        let p1 = pos + d0.len();
        assert(!is_digit(s[p1])) by {
            if edges.drop_first().len() == 0 {
                assert(tail + seq![']'] =~= seq![']']);
                lemma_at_index(s, p1, seq![']'], 0);
            } else {
                lemma_at_index(s, p1, tail + seq![']'], 0);
                assert((tail + seq![']'])[0] == ',');
            }
        }
        lemma_parse_num_at(s, pos, e0 as nat, usize::MAX as nat);
        lemma_parse_edge_rest_at(s, p1, edges.drop_first(), fuel);
        assert(seq![e0] + edges.drop_first() =~= edges);
    }
}
// ----- nodes -----

/// `{"read":` — the first key of a node object.
pub open spec fn key_read() -> Seq<char> {
    seq!['{', '"', 'r', 'e', 'a', 'd', '"', ':']
}

/// `,"write":` — the second key of a node object.
pub open spec fn key_write() -> Seq<char> {
    seq![',', '"', 'w', 'r', 'i', 't', 'e', '"', ':']
}

/// `,"edges":[` — the third key of a node object, opening its edge array.
pub open spec fn key_edges() -> Seq<char> {
    seq![',', '"', 'e', 'd', 'g', 'e', 's', '"', ':', '[']
}

/// The encoding of one node: its two buffered states and its edge targets.
pub open spec fn enc_node(n: NodeModel) -> Seq<char> {
    key_read() + dec_digits(n.read as nat) + key_write() + dec_digits(n.write as nat)
        + key_edges() + enc_edge_items(n.edges) + seq![']'] + seq!['}']
}

/// Parses one node object.
pub open spec fn spec_parse_node(s: Seq<char>, pos: int, fuel: nat) -> Option<(NodeModel, int)> {
    match spec_expect(s, pos, key_read()) {
        Some(e1) => match spec_parse_num(s, e1, u32::MAX as nat) {
            Some(r1) => match spec_expect(s, r1.1, key_write()) {
                Some(e3) => match spec_parse_num(s, e3, u32::MAX as nat) {
                    Some(r2) => match spec_expect(s, r2.1, key_edges()) {
                        Some(e5) => match spec_parse_edge_region(s, e5, fuel) {
                            Some(r3) => match spec_expect(s, r3.1, seq!['}']) {
                                Some(e7) => Some(
                                    (
                                        NodeModel {
                                            read: r1.0 as u32,
                                            write: r2.0 as u32,
                                            edges: r3.0,
                                        },
                                        e7,
                                    ),
                                ),
                                None => None,
                            },
                            None => None,
                        },
                        None => None,
                    },
                    None => None,
                },
                None => None,
            },
            None => None,
        },
        None => None,
    }
}

/// Parsing at an embedded encoded node gives back the node.
#[verifier::rlimit(100)]
#[verifier::spinoff_prover]
proof fn lemma_parse_node_at(s: Seq<char>, pos: int, n: NodeModel, fuel: nat)
    requires
        at(s, pos, enc_node(n)),
        fuel >= n.edges.len() + 1,
    ensures
        spec_parse_node(s, pos, fuel) == Some((n, pos + enc_node(n).len())),
{
    let dr = dec_digits(n.read as nat);
    let dw = dec_digits(n.write as nat);
    let ei = enc_edge_items(n.edges);
    assert(enc_node(n) =~= key_read() + (dr + (key_write() + (dw + (key_edges() + ((ei + seq![
        ']',
    ]) + seq!['}']))))));
    lemma_at_split(s, pos, key_read(), dr + (key_write() + (dw + (key_edges() + ((ei + seq![
        ']',
    ]) + seq!['}'])))));
    let p1 = pos + key_read().len();
    lemma_at_split(s, p1, dr, key_write() + (dw + (key_edges() + ((ei + seq![']']) + seq![
        '}',
    ]))));
    let p2 = p1 + dr.len();
    lemma_at_split(s, p2, key_write(), dw + (key_edges() + ((ei + seq![']']) + seq!['}'])));
    let p3 = p2 + key_write().len();
    lemma_at_split(s, p3, dw, key_edges() + ((ei + seq![']']) + seq!['}']));
    let p4 = p3 + dw.len();
    lemma_at_split(s, p4, key_edges(), (ei + seq![']']) + seq!['}']);
    let p5 = p4 + key_edges().len();
    lemma_at_split(s, p5, ei + seq![']'], seq!['}']);
    lemma_at_index(s, p2, key_write(), 0);
    lemma_parse_num_at(s, p1, n.read as nat, u32::MAX as nat);
    lemma_at_index(s, p4, key_edges(), 0);
    lemma_parse_num_at(s, p3, n.write as nat, u32::MAX as nat);
    lemma_parse_edge_region_at(s, p5, n.edges, fuel);
}

/// The comma-separated encodings of the nodes after the first.
pub open spec fn enc_node_rest(nodes: Seq<NodeModel>) -> Seq<char>
    decreases nodes.len(),
{
    if nodes.len() == 0 {
        Seq::empty()
    } else {
        seq![','] + enc_node(nodes[0]) + enc_node_rest(nodes.drop_first())
    }
}

/// The contents of a node array, commas between the nodes, no brackets.
pub open spec fn enc_node_items(nodes: Seq<NodeModel>) -> Seq<char> {
    if nodes.len() == 0 {
        Seq::empty()
    } else {
        enc_node(nodes[0]) + enc_node_rest(nodes.drop_first())
    }
}

/// Parses `]`, or `,` followed by more nodes, after a node.
pub open spec fn spec_parse_node_rest(s: Seq<char>, pos: int, fuel: nat) -> Option<
    (Seq<NodeModel>, int),
>
    decreases fuel,
{
    if fuel == 0 {
        None
    } else if at(s, pos, seq![']']) {
        Some((Seq::empty(), pos + 1))
    } else if at(s, pos, seq![',']) {
        match spec_parse_node(s, pos + 1, (fuel - 1) as nat) {
            Some(rr) => match spec_parse_node_rest(s, rr.1, (fuel - 1) as nat) {
                Some(rs) => Some((seq![rr.0] + rs.0, rs.1)),
                None => None,
            },
            None => None,
        }
    } else {
        None
    }
}

/// Parses a whole node array from just after its `[`, consuming the `]`.
pub open spec fn spec_parse_node_region(s: Seq<char>, pos: int, fuel: nat) -> Option<
    (Seq<NodeModel>, int),
> {
    if at(s, pos, seq![']']) {
        Some((Seq::empty(), pos + 1))
    } else {
        match spec_parse_node(s, pos, fuel) {
            Some(rr) => match spec_parse_node_rest(s, rr.1, fuel) {
                Some(rs) => Some((seq![rr.0] + rs.0, rs.1)),
                None => None,
            },
            None => None,
        }
    }
}

/// The fuel a node array needs: one unit per node, plus one per edge.
pub open spec fn nodes_fuel(nodes: Seq<NodeModel>) -> nat
    decreases nodes.len(),
{
    if nodes.len() == 0 {
        1
    } else {
        2 + nodes[0].edges.len() + nodes_fuel(nodes.drop_first())
    }
}

/// Parsing at the embedded tail of a node array gives back the nodes.
#[verifier::rlimit(100)]
#[verifier::spinoff_prover]
proof fn lemma_parse_node_rest_at(s: Seq<char>, pos: int, nodes: Seq<NodeModel>, fuel: nat)
    requires
        at(s, pos, enc_node_rest(nodes) + seq![']']),
        fuel >= nodes_fuel(nodes),
    ensures
        spec_parse_node_rest(s, pos, fuel) == Some(
            (nodes, pos + enc_node_rest(nodes).len() + 1),
        ),
    decreases nodes.len(),
{
    if nodes.len() == 0 {
        assert(at(s, pos, seq![']'])) by {
            assert(enc_node_rest(nodes) + seq![']'] =~= seq![']']);
        }
    } else {
        let n0 = nodes[0];
        let tail = enc_node_rest(nodes.drop_first());
        assert(enc_node_rest(nodes) + seq![']'] =~= seq![','] + (enc_node(n0) + (tail + seq![
            ']',
        ])));
        lemma_at_split(s, pos, seq![','], enc_node(n0) + (tail + seq![']']));
        lemma_at_index(s, pos, seq![','], 0);
        assert(!at(s, pos, seq![']'])) by {
            lemma_at_conflict(s, pos, seq![','], seq![']'], 0);
        }
        let p1 = pos + 1;
        lemma_at_split(s, p1, enc_node(n0), tail + seq![']']);
        let p2 = p1 + enc_node(n0).len();
        lemma_parse_node_at(s, p1, n0, (fuel - 1) as nat);
        lemma_parse_node_rest_at(s, p2, nodes.drop_first(), (fuel - 1) as nat);
        assert(seq![n0] + nodes.drop_first() =~= nodes);
    }
}

/// Parsing at an embedded node array body (with its `]`) gives the nodes.
#[verifier::rlimit(100)]
#[verifier::spinoff_prover]
proof fn lemma_parse_node_region_at(s: Seq<char>, pos: int, nodes: Seq<NodeModel>, fuel: nat)
    requires
        at(s, pos, enc_node_items(nodes) + seq![']']),
        fuel >= nodes_fuel(nodes),
    ensures
        spec_parse_node_region(s, pos, fuel) == Some(
            (nodes, pos + enc_node_items(nodes).len() + 1),
        ),
{
    if nodes.len() == 0 {
        assert(at(s, pos, seq![']'])) by {
            assert(enc_node_items(nodes) + seq![']'] =~= seq![']']);
        }
    } else {
        let n0 = nodes[0];
        let tail = enc_node_rest(nodes.drop_first());
        assert(enc_node_items(nodes) + seq![']'] =~= enc_node(n0) + (tail + seq![']']));
        lemma_at_split(s, pos, enc_node(n0), tail + seq![']']);
        lemma_at_index(s, pos, enc_node(n0), 0);
        assert(!at(s, pos, seq![']'])) by {
            lemma_at_conflict(s, pos, enc_node(n0), seq![']'], 0);
        }
        let p1 = pos + enc_node(n0).len();
        lemma_parse_node_at(s, pos, n0, fuel);
        lemma_parse_node_rest_at(s, p1, nodes.drop_first(), fuel);
        assert(seq![n0] + nodes.drop_first() =~= nodes);
    }
}
// ----- the rule table and the whole document -----

/// The encoding of one state's rule array.
pub open spec fn enc_rule_list(list: Seq<Rule>) -> Seq<char> {
    seq!['['] + enc_rule_items(list) + seq![']']
}

/// Parses one state's rule array, brackets included.
pub open spec fn spec_parse_rule_list(s: Seq<char>, pos: int, fuel: nat) -> Option<
    (Seq<Rule>, int),
> {
    if at(s, pos, seq!['[']) {
        spec_parse_rule_region(s, pos + 1, fuel)
    } else {
        None
    }
}

/// Parsing at an embedded rule array gives back its rules.
proof fn lemma_parse_rule_list_at(s: Seq<char>, pos: int, list: Seq<Rule>, fuel: nat)
    requires
        at(s, pos, enc_rule_list(list)),
        fuel >= enc_rule_items(list).len() + 1,
    ensures
        spec_parse_rule_list(s, pos, fuel) == Some((list, pos + enc_rule_list(list).len())),
{
    assert(enc_rule_list(list) =~= seq!['['] + (enc_rule_items(list) + seq![']']));
    lemma_at_split(s, pos, seq!['['], enc_rule_items(list) + seq![']']);
    lemma_at_index(s, pos, seq!['['], 0);
    lemma_parse_rule_region_at(s, pos + 1, list, fuel);
}

/// The comma-separated encodings of the per-state rule arrays after the first.
pub open spec fn enc_lists_rest(lists: Seq<Seq<Rule>>) -> Seq<char>
    decreases lists.len(),
{
    if lists.len() == 0 {
        Seq::empty()
    } else {
        seq![','] + enc_rule_list(lists[0]) + enc_lists_rest(lists.drop_first())
    }
}

/// The contents of the table's outer array, one rule array per state.
pub open spec fn enc_lists_items(lists: Seq<Seq<Rule>>) -> Seq<char> {
    if lists.len() == 0 {
        Seq::empty()
    } else {
        enc_rule_list(lists[0]) + enc_lists_rest(lists.drop_first())
    }
}

/// Parses `]`, or `,` followed by more rule arrays, after a rule array.
pub open spec fn spec_parse_lists_rest(s: Seq<char>, pos: int, fuel: nat) -> Option<
    (Seq<Seq<Rule>>, int),
>
    decreases fuel,
{
    if fuel == 0 {
        None
    } else if at(s, pos, seq![']']) {
        Some((Seq::empty(), pos + 1))
    } else if at(s, pos, seq![',']) {
        match spec_parse_rule_list(s, pos + 1, (fuel - 1) as nat) {
            Some(rr) => match spec_parse_lists_rest(s, rr.1, (fuel - 1) as nat) {
                Some(rs) => Some((seq![rr.0] + rs.0, rs.1)),
                None => None,
            },
            None => None,
        }
    } else {
        None
    }
}

/// Parses the table's outer array from just after its `[`, consuming the `]`.
pub open spec fn spec_parse_lists_region(s: Seq<char>, pos: int, fuel: nat) -> Option<
    (Seq<Seq<Rule>>, int),
> {
    if at(s, pos, seq![']']) {
        Some((Seq::empty(), pos + 1))
    } else {
        match spec_parse_rule_list(s, pos, fuel) {
            Some(rr) => match spec_parse_lists_rest(s, rr.1, fuel) {
                Some(rs) => Some((seq![rr.0] + rs.0, rs.1)),
                None => None,
            },
            None => None,
        }
    }
}

/// The fuel the table's outer array needs.
pub open spec fn lists_fuel(lists: Seq<Seq<Rule>>) -> nat
    decreases lists.len(),
{
    if lists.len() == 0 {
        1
    } else {
        2 + enc_rule_items(lists[0]).len() + lists_fuel(lists.drop_first())
    }
}

/// Parsing at the embedded tail of the outer array gives back the rule arrays.
#[verifier::rlimit(100)]
#[verifier::spinoff_prover]
proof fn lemma_parse_lists_rest_at(s: Seq<char>, pos: int, lists: Seq<Seq<Rule>>, fuel: nat)
    requires
        at(s, pos, enc_lists_rest(lists) + seq![']']),
        fuel >= lists_fuel(lists),
    ensures
        spec_parse_lists_rest(s, pos, fuel) == Some(
            (lists, pos + enc_lists_rest(lists).len() + 1),
        ),
    decreases lists.len(),
{
    if lists.len() == 0 {
        assert(at(s, pos, seq![']'])) by {
            assert(enc_lists_rest(lists) + seq![']'] =~= seq![']']);
        }
    } else {
        let l0 = lists[0];
        let tail = enc_lists_rest(lists.drop_first());
        assert(enc_lists_rest(lists) + seq![']'] =~= seq![','] + (enc_rule_list(l0) + (tail
            + seq![']'])));
        lemma_at_split(s, pos, seq![','], enc_rule_list(l0) + (tail + seq![']']));
        lemma_at_index(s, pos, seq![','], 0);
        assert(!at(s, pos, seq![']'])) by {
            lemma_at_conflict(s, pos, seq![','], seq![']'], 0);
        }
        let p1 = pos + 1;
        lemma_at_split(s, p1, enc_rule_list(l0), tail + seq![']']);
        let p2 = p1 + enc_rule_list(l0).len();
        lemma_parse_rule_list_at(s, p1, l0, (fuel - 1) as nat);
        lemma_parse_lists_rest_at(s, p2, lists.drop_first(), (fuel - 1) as nat);
        assert(seq![l0] + lists.drop_first() =~= lists);
    }
}

/// Parsing at the embedded outer array body (with its `]`) gives the arrays.
#[verifier::rlimit(100)]
#[verifier::spinoff_prover]
proof fn lemma_parse_lists_region_at(s: Seq<char>, pos: int, lists: Seq<Seq<Rule>>, fuel: nat)
    requires
        at(s, pos, enc_lists_items(lists) + seq![']']),
        fuel >= lists_fuel(lists),
    ensures
        spec_parse_lists_region(s, pos, fuel) == Some(
            (lists, pos + enc_lists_items(lists).len() + 1),
        ),
{
    if lists.len() == 0 {
        assert(at(s, pos, seq![']'])) by {
            assert(enc_lists_items(lists) + seq![']'] =~= seq![']']);
        }
    } else {
        let l0 = lists[0];
        let tail = enc_lists_rest(lists.drop_first());
        assert(enc_lists_items(lists) + seq![']'] =~= enc_rule_list(l0) + (tail + seq![']']));
        lemma_at_split(s, pos, enc_rule_list(l0), tail + seq![']']);
        lemma_at_index(s, pos, enc_rule_list(l0), 0);
        assert(!at(s, pos, seq![']'])) by {
            lemma_at_conflict(s, pos, enc_rule_list(l0), seq![']'], 0);
        }
        let p1 = pos + enc_rule_list(l0).len();
        lemma_parse_rule_list_at(s, pos, l0, fuel);
        lemma_parse_lists_rest_at(s, p1, lists.drop_first(), fuel);
        assert(seq![l0] + lists.drop_first() =~= lists);
    }
}

/// `{"names":[` — the head of the rule table object.
pub open spec fn key_names() -> Seq<char> {
    seq!['{', '"', 'n', 'a', 'm', 'e', 's', '"', ':', '[']
}

/// `,"rules":[` — the second key of the rule table object.
pub open spec fn key_rules() -> Seq<char> {
    seq![',', '"', 'r', 'u', 'l', 'e', 's', '"', ':', '[']
}

/// `{"nodes":[` — the head of the graph object.
pub open spec fn key_nodes() -> Seq<char> {
    seq!['{', '"', 'n', 'o', 'd', 'e', 's', '"', ':', '[']
}

/// `{"rules":` — the head of the document.
pub open spec fn key_doc_rules() -> Seq<char> {
    seq!['{', '"', 'r', 'u', 'l', 'e', 's', '"', ':']
}

/// `,"graph":` — the second key of the document.
pub open spec fn key_doc_graph() -> Seq<char> {
    seq![',', '"', 'g', 'r', 'a', 'p', 'h', '"', ':']
}

/// The encoding of the rule table: display names, then per-state rule arrays.
pub open spec fn enc_ruleset(names: Seq<Seq<char>>, lists: Seq<Seq<Rule>>) -> Seq<char> {
    key_names() + enc_name_items(names) + seq![']'] + key_rules() + enc_lists_items(lists)
        + seq![']'] + seq!['}']
}

/// The encoding of the graph: its node array.
pub open spec fn enc_graph(nodes: Seq<NodeModel>) -> Seq<char> {
    key_nodes() + enc_node_items(nodes) + seq![']'] + seq!['}']
}

/// The encoding of a whole automaton document.
pub open spec fn enc_doc(
    names: Seq<Seq<char>>,
    lists: Seq<Seq<Rule>>,
    nodes: Seq<NodeModel>,
) -> Seq<char> {
    key_doc_rules() + enc_ruleset(names, lists) + key_doc_graph() + enc_graph(nodes) + seq!['}']
}

/// Parses the rule table object.
pub open spec fn spec_parse_ruleset(s: Seq<char>, pos: int, fuel: nat) -> Option<
    ((Seq<Seq<char>>, Seq<Seq<Rule>>), int),
> {
    match spec_expect(s, pos, key_names()) {
        Some(e1) => match spec_parse_name_region(s, e1, fuel) {
            Some(rn) => match spec_expect(s, rn.1, key_rules()) {
                Some(e3) => match spec_parse_lists_region(s, e3, fuel) {
                    Some(rl) => match spec_expect(s, rl.1, seq!['}']) {
                        Some(e5) => Some(((rn.0, rl.0), e5)),
                        None => None,
                    },
                    None => None,
                },
                None => None,
            },
            None => None,
        },
        None => None,
    }
}

/// Parses the graph object.
pub open spec fn spec_parse_graph(s: Seq<char>, pos: int, fuel: nat) -> Option<
    (Seq<NodeModel>, int),
> {
    match spec_expect(s, pos, key_nodes()) {
        Some(e1) => match spec_parse_node_region(s, e1, fuel) {
            Some(rn) => match spec_expect(s, rn.1, seq!['}']) {
                Some(e3) => Some((rn.0, e3)),
                None => None,
            },
            None => None,
        },
        None => None,
    }
}

/// Parses a whole automaton document.
pub open spec fn spec_parse_doc(s: Seq<char>, pos: int, fuel: nat) -> Option<
    ((Seq<Seq<char>>, Seq<Seq<Rule>>, Seq<NodeModel>), int),
> {
    match spec_expect(s, pos, key_doc_rules()) {
        Some(e1) => match spec_parse_ruleset(s, e1, fuel) {
            Some(rr) => match spec_expect(s, rr.1, key_doc_graph()) {
                Some(e3) => match spec_parse_graph(s, e3, fuel) {
                    Some(rg) => match spec_expect(s, rg.1, seq!['}']) {
                        Some(e5) => Some(((rr.0.0, rr.0.1, rg.0), e5)),
                        None => None,
                    },
                    None => None,
                },
                None => None,
            },
            None => None,
        },
        None => None,
    }
}

/// Parsing at an embedded rule table gives back its names and rule arrays.
#[verifier::rlimit(100)]
#[verifier::spinoff_prover]
proof fn lemma_parse_ruleset_at(
    s: Seq<char>,
    pos: int,
    names: Seq<Seq<char>>,
    lists: Seq<Seq<Rule>>,
    fuel: nat,
)
    requires
        at(s, pos, enc_ruleset(names, lists)),
        fuel >= names.len() + 1,
        fuel >= lists_fuel(lists),
    ensures
        spec_parse_ruleset(s, pos, fuel) == Some(
            ((names, lists), pos + enc_ruleset(names, lists).len()),
        ),
{
    let ni = enc_name_items(names);
    let li = enc_lists_items(lists);
    let t1 = ni + (seq![']'] + (key_rules() + (li + (seq![']'] + seq!['}']))));
    assert(enc_ruleset(names, lists) =~= key_names() + t1);
    lemma_at_split(s, pos, key_names(), t1);
    let p1 = pos + key_names().len();
    lemma_at_split(s, p1, ni, seq![']'] + (key_rules() + (li + (seq![']'] + seq!['}']))));
    let q1 = p1 + ni.len();
    lemma_at_split(s, q1, seq![']'], key_rules() + (li + (seq![']'] + seq!['}'])));
    lemma_at_join(s, p1, ni, seq![']']);
    let p2 = q1 + 1;
    lemma_at_split(s, p2, key_rules(), li + (seq![']'] + seq!['}']));
    let p3 = p2 + key_rules().len();
    lemma_at_split(s, p3, li, seq![']'] + seq!['}']);
    let q3 = p3 + li.len();
    lemma_at_split(s, q3, seq![']'], seq!['}']);
    lemma_at_join(s, p3, li, seq![']']);
    lemma_parse_name_region_at(s, p1, names, fuel);
    lemma_parse_lists_region_at(s, p3, lists, fuel);
    assert(spec_expect(s, pos, key_names()) == Some(p1));
    assert(spec_expect(s, q1 + 1 + key_rules().len() + li.len() + 1, seq!['}']) == Some(
        q3 + 2,
    ));
}

/// Parsing at an embedded graph gives back its nodes.
proof fn lemma_parse_graph_at(s: Seq<char>, pos: int, nodes: Seq<NodeModel>, fuel: nat)
    requires
        at(s, pos, enc_graph(nodes)),
        fuel >= nodes_fuel(nodes),
    ensures
        spec_parse_graph(s, pos, fuel) == Some((nodes, pos + enc_graph(nodes).len())),
{
    let ni = enc_node_items(nodes);
    assert(enc_graph(nodes) =~= key_nodes() + ((ni + seq![']']) + seq!['}']));
    lemma_at_split(s, pos, key_nodes(), (ni + seq![']']) + seq!['}']);
    let p1 = pos + key_nodes().len();
    lemma_at_split(s, p1, ni + seq![']'], seq!['}']);
    lemma_parse_node_region_at(s, p1, nodes, fuel);
}

/// Round trip: parsing a serialized document gives back exactly the names,
/// per-state rule arrays and nodes it was built from, consuming all of it.
#[verifier::rlimit(100)]
#[verifier::spinoff_prover]
pub proof fn lemma_doc_round_trip(
    s: Seq<char>,
    names: Seq<Seq<char>>,
    lists: Seq<Seq<Rule>>,
    nodes: Seq<NodeModel>,
    fuel: nat,
)
    requires
        s == enc_doc(names, lists, nodes),
        fuel >= names.len() + 1,
        fuel >= lists_fuel(lists),
        fuel >= nodes_fuel(nodes),
    ensures
        spec_parse_doc(s, 0, fuel) == Some(((names, lists, nodes), s.len() as int)),
{
    let er = enc_ruleset(names, lists);
    let eg = enc_graph(nodes);
    assert(at(s, 0, enc_doc(names, lists, nodes))) by {
        assert(s.subrange(0, s.len() as int) =~= s);
    }
    assert(enc_doc(names, lists, nodes) =~= key_doc_rules() + (er + (key_doc_graph() + (eg
        + seq!['}']))));
    lemma_at_split(s, 0, key_doc_rules(), er + (key_doc_graph() + (eg + seq!['}'])));
    let p1 = key_doc_rules().len() as int;
    lemma_at_split(s, p1, er, key_doc_graph() + (eg + seq!['}']));
    let p2 = p1 + er.len();
    lemma_at_split(s, p2, key_doc_graph(), eg + seq!['}']);
    let p3 = p2 + key_doc_graph().len();
    lemma_at_split(s, p3, eg, seq!['}']);
    lemma_parse_ruleset_at(s, p1, names, lists, fuel);
    lemma_parse_graph_at(s, p3, nodes, fuel);
}
// ----- the executable serializer -----

/// The views of a vector of display names.
pub open spec fn names_model(names: Seq<String>) -> Seq<Seq<char>> {
    names.map_values(|n: String| n@)
}

/// The views of a vector of nodes.
pub open spec fn nodes_model(nodes: Seq<Node>) -> Seq<NodeModel> {
    nodes.map_values(|n: Node| n@)
}

/// Appends every character of `frag`.
fn push_all(out: &mut Vec<char>, frag: Vec<char>)
    ensures
        final(out)@ == old(out)@ + frag@,
{
    let mut k: usize = 0;
    while k < frag.len()
        invariant
            k <= frag@.len(),
            out@ == old(out)@ + frag@.take(k as int),
        decreases frag@.len() - k,
    {
        out.push(frag[k]);
        proof {
            assert(old(out)@ + frag@.take(k + 1) =~= (old(out)@ + frag@.take(k as int)).push(
                frag@[k as int],
            ));
        }
        k = k + 1;
    }
    proof {
        assert(old(out)@ + frag@.take(frag@.len() as int) =~= old(out)@ + frag@);
    }
}

/// The character of one decimal digit.
fn digit_to_char(d: u64) -> (c: char)
    requires
        d < 10,
    ensures
        c == digit_char(d as nat),
{
    match d {
        0 => '0',
        1 => '1',
        2 => '2',
        3 => '3',
        4 => '4',
        5 => '5',
        6 => '6',
        7 => '7',
        8 => '8',
        _ => '9',
    }
}

/// Appends the canonical decimal digits of `n`.
fn emit_num(n: u64, out: &mut Vec<char>)
    ensures
        final(out)@ == old(out)@ + dec_digits(n as nat),
    decreases n,
{
    if n >= 10 {
        emit_num(n / 10, out);
    }
    let c = digit_to_char(n % 10);
    out.push(c);
    proof {
        if n < 10 {
            assert(old(out)@ + dec_digits(n as nat) =~= old(out)@.push(digit_char(n as nat)));
        } else {
            assert(old(out)@ + dec_digits(n as nat) =~= (old(out)@ + dec_digits(
                (n / 10) as nat,
            )).push(digit_char((n % 10) as nat)));
        }
    }
}

/// Appends the escaped body of `name` from character `i` on.
fn emit_str_body(name: &str, i: usize, out: &mut Vec<char>)
    requires
        i <= name@.len(),
    ensures
        final(out)@ == old(out)@ + enc_str_body(name@.skip(i as int)),
    decreases name@.len() - i,
{
    if i < name.unicode_len() {
        let c = name.get_char(i);
        if c == '"' || c == '\\' {
            out.push('\\');
            out.push(c);
        } else {
            out.push(c);
        }
        let ghost mid = out@;
        emit_str_body(name, i + 1, out);
        proof {
            assert(name@.skip(i as int)[0] == name@[i as int]);
            assert(name@.skip(i as int).drop_first() =~= name@.skip(i + 1));
            assert(mid =~= old(out)@ + esc_char(name@[i as int]));
            assert(old(out)@ + enc_str_body(name@.skip(i as int)) =~= (old(out)@ + esc_char(
                name@[i as int],
            )) + enc_str_body(name@.skip(i + 1)));
        }
    } else {
        proof {
            assert(name@.skip(i as int) =~= Seq::<char>::empty());
            assert(old(out)@ + enc_str_body(name@.skip(i as int)) =~= old(out)@);
        }
    }
}

/// Appends a quoted, escaped string.
fn emit_string(name: &str, out: &mut Vec<char>)
    ensures
        final(out)@ == old(out)@ + enc_string(name@),
{
    out.push('"');
    emit_str_body(name, 0, out);
    out.push('"');
    proof {
        assert(name@.skip(0) =~= name@);
        assert(old(out)@ + enc_string(name@) =~= ((old(out)@.push('"')) + enc_str_body(
            name@,
        )).push('"'));
    }
}

/// Appends the payload of a counting pattern.
fn emit_count_body(state: u32, number: u32, out: &mut Vec<char>)
    ensures
        final(out)@ == old(out)@ + enc_count_body(state, number),
{
    let f = vec!['{', '"', 's', 't', 'a', 't', 'e', '"', ':'];
    proof {
        assert(f@ =~= key_state());
    }
    push_all(out, f);
    emit_num(state as u64, out);
    let g = vec![',', '"', 'n', 'u', 'm', 'b', 'e', 'r', '"', ':'];
    proof {
        assert(g@ =~= key_number());
    }
    push_all(out, g);
    emit_num(number as u64, out);
    let h = vec!['}', '}'];
    proof {
        assert(h@ =~= seq!['}', '}']);
    }
    push_all(out, h);
    proof {
        assert(old(out)@ + enc_count_body(state, number) =~= ((((old(out)@ + key_state())
            + dec_digits(state as nat)) + key_number()) + dec_digits(number as nat)) + seq![
            '}',
            '}',
        ]);
    }
}
/// Appends the encoding of a pattern.
fn emit_pattern(p: &Pattern, out: &mut Vec<char>)
    ensures
        final(out)@ == old(out)@ + enc_pattern(*p),
    decreases *p,
{
    match p {
        Pattern::Equal { state, number } => {
            let f = vec!['{', '"', 'E', 'q', 'u', 'a', 'l', '"', ':'];
            proof {
                assert(f@ =~= head_equal());
            }
            push_all(out, f);
            emit_count_body(*state, *number, out);
            proof {
                assert(old(out)@ + enc_pattern(*p) =~= (old(out)@ + head_equal())
                    + enc_count_body(*state, *number));
            }
        }
        Pattern::Gth { state, number } => {
            let f = vec!['{', '"', 'G', 't', 'h', '"', ':'];
            proof {
                assert(f@ =~= head_gth());
            }
            push_all(out, f);
            emit_count_body(*state, *number, out);
            proof {
                assert(old(out)@ + enc_pattern(*p) =~= (old(out)@ + head_gth()) + enc_count_body(
                    *state,
                    *number,
                ));
            }
        }
        Pattern::Lth { state, number } => {
            let f = vec!['{', '"', 'L', 't', 'h', '"', ':'];
            proof {
                assert(f@ =~= head_lth());
            }
            push_all(out, f);
            emit_count_body(*state, *number, out);
            proof {
                assert(old(out)@ + enc_pattern(*p) =~= (old(out)@ + head_lth()) + enc_count_body(
                    *state,
                    *number,
                ));
            }
        }
        Pattern::Geq { state, number } => {
            let f = vec!['{', '"', 'G', 'e', 'q', '"', ':'];
            proof {
                assert(f@ =~= head_geq());
            }
            push_all(out, f);
            emit_count_body(*state, *number, out);
            proof {
                assert(old(out)@ + enc_pattern(*p) =~= (old(out)@ + head_geq()) + enc_count_body(
                    *state,
                    *number,
                ));
            }
        }
        Pattern::Leq { state, number } => {
            let f = vec!['{', '"', 'L', 'e', 'q', '"', ':'];
            proof {
                assert(f@ =~= head_leq());
            }
            push_all(out, f);
            emit_count_body(*state, *number, out);
            proof {
                assert(old(out)@ + enc_pattern(*p) =~= (old(out)@ + head_leq()) + enc_count_body(
                    *state,
                    *number,
                ));
            }
        }
        Pattern::Or(a, b) => {
            let f = vec!['{', '"', 'O', 'r', '"', ':', '['];
            proof {
                assert(f@ =~= head_or());
            }
            push_all(out, f);
            emit_pattern(a, out);
            out.push(',');
            emit_pattern(b, out);
            let g = vec![']', '}'];
            proof {
                assert(g@ =~= seq![']', '}']);
            }
            push_all(out, g);
            proof {
                assert(old(out)@ + enc_pattern(*p) =~= ((((old(out)@ + head_or()) + enc_pattern(
                    **a,
                )).push(',')) + enc_pattern(**b)) + seq![']', '}']);
            }
        }
        Pattern::And(a, b) => {
            let f = vec!['{', '"', 'A', 'n', 'd', '"', ':', '['];
            proof {
                assert(f@ =~= head_and());
            }
            push_all(out, f);
            emit_pattern(a, out);
            out.push(',');
            emit_pattern(b, out);
            let g = vec![']', '}'];
            proof {
                assert(g@ =~= seq![']', '}']);
            }
            push_all(out, g);
            proof {
                assert(old(out)@ + enc_pattern(*p) =~= ((((old(out)@ + head_and()) + enc_pattern(
                    **a,
                )).push(',')) + enc_pattern(**b)) + seq![']', '}']);
            }
        }
        Pattern::Not(a) => {
            let f = vec!['{', '"', 'N', 'o', 't', '"', ':'];
            proof {
                assert(f@ =~= head_not());
            }
            push_all(out, f);
            emit_pattern(a, out);
            out.push('}');
            proof {
                assert(old(out)@ + enc_pattern(*p) =~= ((old(out)@ + head_not()) + enc_pattern(
                    **a,
                )).push('}'));
            }
        }
        Pattern::Wildcard => {
            let f = vec!['"', 'W', 'i', 'l', 'd', 'c', 'a', 'r', 'd', '"'];
            proof {
                assert(f@ =~= lit_wildcard());
            }
            push_all(out, f);
        }
    }
}

/// Appends the encoding of one rule.
fn emit_rule(r: &Rule, out: &mut Vec<char>)
    ensures
        final(out)@ == old(out)@ + enc_rule(*r),
{
    let f = vec!['{', '"', 'p', 'a', 't', 't', 'e', 'r', 'n', '"', ':'];
    proof {
        assert(f@ =~= key_pattern());
    }
    push_all(out, f);
    emit_pattern(&r.pattern, out);
    let g = vec![',', '"', 'r', 'e', 'p', 'l', 'a', 'c', 'e', 'm', 'e', 'n', 't', '"', ':'];
    proof {
        assert(g@ =~= key_replacement());
    }
    push_all(out, g);
    emit_num(r.replacement as u64, out);
    out.push('}');
    proof {
        assert(old(out)@ + enc_rule(*r) =~= ((((old(out)@ + key_pattern()) + enc_pattern(
            r.pattern,
        )) + key_replacement()) + dec_digits(r.replacement as nat)).push('}'));
    }
}

/// Appends the rules after the first, each with its leading comma.
fn emit_rule_rest(list: &Vec<Rule>, k: usize, out: &mut Vec<char>)
    requires
        1 <= k <= list@.len(),
    ensures
        final(out)@ == old(out)@ + enc_rule_rest(list@.skip(k as int)),
    decreases list@.len() - k,
{
    if k < list.len() {
        out.push(',');
        emit_rule(&list[k], out);
        emit_rule_rest(list, k + 1, out);
        proof {
            assert(list@.skip(k as int)[0] == list@[k as int]);
            assert(list@.skip(k as int).drop_first() =~= list@.skip(k + 1));
            assert(old(out)@ + enc_rule_rest(list@.skip(k as int)) =~= ((old(out)@.push(','))
                + enc_rule(list@[k as int])) + enc_rule_rest(list@.skip(k + 1)));
        }
    } else {
        proof {
            assert(list@.skip(k as int) =~= Seq::<Rule>::empty());
            assert(old(out)@ + enc_rule_rest(list@.skip(k as int)) =~= old(out)@);
        }
    }
}

/// Appends one state's full rule array, brackets included.
fn emit_rule_list(list: &Vec<Rule>, out: &mut Vec<char>)
    ensures
        final(out)@ == old(out)@ + enc_rule_list(list@),
{
    out.push('[');
    if list.len() > 0 {
        emit_rule(&list[0], out);
        emit_rule_rest(list, 1, out);
        proof {
            assert(list@.skip(1) =~= list@.drop_first());
        }
    }
    out.push(']');
    proof {
        if list@.len() == 0 {
            assert(old(out)@ + enc_rule_list(list@) =~= old(out)@.push('[').push(']'));
        } else {
            assert(old(out)@ + enc_rule_list(list@) =~= (((old(out)@.push('[')) + enc_rule(
                list@[0],
            )) + enc_rule_rest(list@.drop_first())).push(']'));
        }
    }
}

/// Appends the display names after the first, each with its leading comma.
fn emit_name_rest(names: &Vec<String>, k: usize, out: &mut Vec<char>)
    requires
        1 <= k <= names@.len(),
    ensures
        final(out)@ == old(out)@ + enc_name_rest(names_model(names@).skip(k as int)),
    decreases names@.len() - k,
{
    if k < names.len() {
        out.push(',');
        emit_string(names[k].as_str(), out);
        emit_name_rest(names, k + 1, out);
        proof {
            let m = names_model(names@);
            assert(m.skip(k as int)[0] == m[k as int]);
            assert(m[k as int] == names@[k as int]@);
            assert(m.skip(k as int).drop_first() =~= m.skip(k + 1));
            assert(old(out)@ + enc_name_rest(m.skip(k as int)) =~= ((old(out)@.push(','))
                + enc_string(names@[k as int]@)) + enc_name_rest(m.skip(k + 1)));
        }
    } else {
        proof {
            assert(names_model(names@).skip(k as int) =~= Seq::<Seq<char>>::empty());
            assert(old(out)@ + enc_name_rest(names_model(names@).skip(k as int)) =~= old(out)@);
        }
    }
}

/// Appends the edge targets after the first, each with its leading comma.
fn emit_edge_rest(edges: &Vec<usize>, k: usize, out: &mut Vec<char>)
    requires
        1 <= k <= edges@.len(),
    ensures
        final(out)@ == old(out)@ + enc_edge_rest(edges@.skip(k as int)),
    decreases edges@.len() - k,
{
    if k < edges.len() {
        out.push(',');
        emit_num(edges[k] as u64, out);
        emit_edge_rest(edges, k + 1, out);
        proof {
            assert(edges@.skip(k as int)[0] == edges@[k as int]);
            assert(edges@.skip(k as int).drop_first() =~= edges@.skip(k + 1));
            assert(old(out)@ + enc_edge_rest(edges@.skip(k as int)) =~= ((old(out)@.push(','))
                + dec_digits(edges@[k as int] as nat)) + enc_edge_rest(edges@.skip(k + 1)));
        }
    } else {
        proof {
            assert(edges@.skip(k as int) =~= Seq::<usize>::empty());
            assert(old(out)@ + enc_edge_rest(edges@.skip(k as int)) =~= old(out)@);
        }
    }
}

/// Appends the encoding of one node.
fn emit_node(n: &Node, out: &mut Vec<char>)
    ensures
        final(out)@ == old(out)@ + enc_node(n@),
{
    let f = vec!['{', '"', 'r', 'e', 'a', 'd', '"', ':'];
    proof {
        assert(f@ =~= key_read());
    }
    push_all(out, f);
    emit_num(n.read as u64, out);
    let g = vec![',', '"', 'w', 'r', 'i', 't', 'e', '"', ':'];
    proof {
        assert(g@ =~= key_write());
    }
    push_all(out, g);
    emit_num(n.write as u64, out);
    let h = vec![',', '"', 'e', 'd', 'g', 'e', 's', '"', ':', '['];
    proof {
        assert(h@ =~= key_edges());
    }
    push_all(out, h);
    if n.edges.len() > 0 {
        emit_num(n.edges[0] as u64, out);
        emit_edge_rest(&n.edges, 1, out);
        proof {
            assert(n.edges@.skip(1) =~= n.edges@.drop_first());
        }
    }
    let tail = vec![']', '}'];
    proof {
        assert(tail@ =~= seq![']'] + seq!['}']);
    }
    push_all(out, tail);
    proof {
        if n.edges@.len() == 0 {
            assert(enc_edge_items(n@.edges) =~= Seq::<char>::empty());
            assert(old(out)@ + enc_node(n@) =~= (((((old(out)@ + key_read()) + dec_digits(
                n.read as nat,
            )) + key_write()) + dec_digits(n.write as nat)) + key_edges()) + (seq![']'] + seq![
                '}',
            ]));
        } else {
            assert(enc_edge_items(n@.edges) =~= dec_digits(n.edges@[0] as nat) + enc_edge_rest(
                n.edges@.drop_first(),
            ));
            assert(old(out)@ + enc_node(n@) =~= (((((((old(out)@ + key_read()) + dec_digits(
                n.read as nat,
            )) + key_write()) + dec_digits(n.write as nat)) + key_edges()) + dec_digits(
                n.edges@[0] as nat,
            )) + enc_edge_rest(n.edges@.drop_first())) + (seq![']'] + seq!['}']));
        }
    }
}

/// Appends the nodes after the first, each with its leading comma.
fn emit_node_rest(nodes: &Vec<Node>, k: usize, out: &mut Vec<char>)
    requires
        1 <= k <= nodes@.len(),
    ensures
        final(out)@ == old(out)@ + enc_node_rest(nodes_model(nodes@).skip(k as int)),
    decreases nodes@.len() - k,
{
    if k < nodes.len() {
        out.push(',');
        emit_node(&nodes[k], out);
        emit_node_rest(nodes, k + 1, out);
        proof {
            let m = nodes_model(nodes@);
            assert(m.skip(k as int)[0] == m[k as int]);
            assert(m[k as int] == nodes@[k as int]@);
            assert(m.skip(k as int).drop_first() =~= m.skip(k + 1));
            assert(old(out)@ + enc_node_rest(m.skip(k as int)) =~= ((old(out)@.push(','))
                + enc_node(nodes@[k as int]@)) + enc_node_rest(m.skip(k + 1)));
        }
    } else {
        proof {
            let m = nodes_model(nodes@);
            assert(m.skip(k as int) =~= Seq::<NodeModel>::empty());
            assert(old(out)@ + enc_node_rest(m.skip(k as int)) =~= old(out)@);
        }
    }
}

/// Appends the rule arrays after the first, each with its leading comma.
fn emit_lists_rest(lists: &Vec<Vec<Rule>>, k: usize, out: &mut Vec<char>)
    requires
        1 <= k <= lists@.len(),
    ensures
        final(out)@ == old(out)@ + enc_lists_rest(rule_lists(lists@).skip(k as int)),
    decreases lists@.len() - k,
{
    if k < lists.len() {
        out.push(',');
        emit_rule_list(&lists[k], out);
        emit_lists_rest(lists, k + 1, out);
        proof {
            let m = rule_lists(lists@);
            assert(m.skip(k as int)[0] == m[k as int]);
            assert(m[k as int] == lists@[k as int]@);
            assert(m.skip(k as int).drop_first() =~= m.skip(k + 1));
            assert(old(out)@ + enc_lists_rest(m.skip(k as int)) =~= ((old(out)@.push(','))
                + enc_rule_list(lists@[k as int]@)) + enc_lists_rest(m.skip(k + 1)));
        }
    } else {
        proof {
            let m = rule_lists(lists@);
            assert(m.skip(k as int) =~= Seq::<Seq<Rule>>::empty());
            assert(old(out)@ + enc_lists_rest(m.skip(k as int)) =~= old(out)@);
        }
    }
}
/// Appends the encoding of the rule table.
#[verifier::rlimit(100)]
#[verifier::spinoff_prover]
fn emit_ruleset(rs: &Ruleset, out: &mut Vec<char>)
    ensures
        final(out)@ == old(out)@ + enc_ruleset(names_model(rs.names@), rule_lists(rs.rules@)),
{
    let f = vec!['{', '"', 'n', 'a', 'm', 'e', 's', '"', ':', '['];
    proof {
        assert(f@ =~= key_names());
    }
    push_all(out, f);
    if rs.names.len() > 0 {
        emit_string(rs.names[0].as_str(), out);
        emit_name_rest(&rs.names, 1, out);
        proof {
            let m = names_model(rs.names@);
            assert(m.skip(1) =~= m.drop_first());
            assert(m[0] == rs.names@[0]@);
        }
    }
    let g = vec![']', ',', '"', 'r', 'u', 'l', 'e', 's', '"', ':', '['];
    proof {
        assert(g@ =~= seq![']'] + key_rules());
    }
    push_all(out, g);
    if rs.rules.len() > 0 {
        emit_rule_list(&rs.rules[0], out);
        emit_lists_rest(&rs.rules, 1, out);
        proof {
            let m = rule_lists(rs.rules@);
            assert(m.skip(1) =~= m.drop_first());
            assert(m[0] == rs.rules@[0]@);
        }
    }
    let h = vec![']', '}'];
    proof {
        assert(h@ =~= seq![']'] + seq!['}']);
    }
    push_all(out, h);
    proof {
        assert(old(out)@ + enc_ruleset(names_model(rs.names@), rule_lists(rs.rules@)) =~= ((((
        old(out)@ + key_names()) + enc_name_items(names_model(rs.names@))) + (seq![']']
            + key_rules())) + enc_lists_items(rule_lists(rs.rules@))) + (seq![']'] + seq!['}']));
    }
}

/// Appends the encoding of the graph.
#[verifier::rlimit(100)]
#[verifier::spinoff_prover]
fn emit_graph(g: &Graph, out: &mut Vec<char>)
    ensures
        final(out)@ == old(out)@ + enc_graph(g@),
{
    let f = vec!['{', '"', 'n', 'o', 'd', 'e', 's', '"', ':', '['];
    proof {
        assert(f@ =~= key_nodes());
    }
    push_all(out, f);
    if g.nodes.len() > 0 {
        emit_node(&g.nodes[0], out);
        emit_node_rest(&g.nodes, 1, out);
        proof {
            let m = nodes_model(g.nodes@);
            assert(m.skip(1) =~= m.drop_first());
            assert(m[0] == g.nodes@[0]@);
        }
    }
    let h = vec![']', '}'];
    proof {
        assert(h@ =~= seq![']'] + seq!['}']);
    }
    push_all(out, h);
    proof {
        assert(nodes_model(g.nodes@) =~= g@);
        assert(old(out)@ + enc_graph(g@) =~= ((old(out)@ + key_nodes()) + enc_node_items(g@)) + (
        seq![']'] + seq!['}']));
    }
}

impl Automaton {
    /// Serializes this automaton as the persisted document, one character per
    /// vector entry.
    #[verifier::rlimit(100)]
    #[verifier::spinoff_prover]
    pub fn serialize(&self) -> (out: Vec<char>)
        ensures
            out@ == enc_doc(
                names_model(self.rules.names@),
                rule_lists(self.rules.rules@),
                self.graph@,
            ),
    {
        let mut out: Vec<char> = Vec::new();
        let f = vec!['{', '"', 'r', 'u', 'l', 'e', 's', '"', ':'];
        proof {
            assert(f@ =~= key_doc_rules());
        }
        push_all(&mut out, f);
        emit_ruleset(&self.rules, &mut out);
        let g = vec![',', '"', 'g', 'r', 'a', 'p', 'h', '"', ':'];
        proof {
            assert(g@ =~= key_doc_graph());
        }
        push_all(&mut out, g);
        emit_graph(&self.graph, &mut out);
        out.push('}');
        proof {
            let names = names_model(self.rules.names@);
            let lists = rule_lists(self.rules.rules@);
            assert(out@ =~= (((((Seq::<char>::empty() + key_doc_rules()) + enc_ruleset(
                names,
                lists,
            )) + key_doc_graph()) + enc_graph(self.graph@)).push('}')));
            assert(out@ =~= enc_doc(names, lists, self.graph@));
        }
        out
    }
}

/// Every listed name costs at least one encoded character.
proof fn lemma_names_fuel_rest(names: Seq<Seq<char>>)
    ensures
        names.len() <= enc_name_rest(names).len(),
    decreases names.len(),
{
    if names.len() > 0 {
        lemma_names_fuel_rest(names.drop_first());
    }
}

/// A name array never needs more fuel than its encoded length provides.
proof fn lemma_names_fuel(names: Seq<Seq<char>>)
    ensures
        names.len() <= enc_name_items(names).len(),
{
    if names.len() > 0 {
        lemma_names_fuel_rest(names.drop_first());
    }
}

/// Every rule array after the first pays for its own fuel.
proof fn lemma_lists_fuel_rest(lists: Seq<Seq<Rule>>)
    ensures
        lists_fuel(lists) <= enc_lists_rest(lists).len() + 1,
    decreases lists.len(),
{
    if lists.len() > 0 {
        lemma_lists_fuel_rest(lists.drop_first());
    }
}

/// The table's outer array never needs more fuel than its encoded length
/// provides, plus one.
proof fn lemma_lists_fuel(lists: Seq<Seq<Rule>>)
    ensures
        lists_fuel(lists) <= enc_lists_items(lists).len() + 1,
{
    if lists.len() > 0 {
        lemma_lists_fuel_rest(lists.drop_first());
    }
}

/// Every edge target costs at least one encoded character.
proof fn lemma_edges_cost(edges: Seq<usize>)
    ensures
        edges.len() <= enc_edge_items(edges).len(),
{
    if edges.len() > 0 {
        lemma_dec_digits_are_digits(edges[0] as nat);
        lemma_edges_cost_rest(edges.drop_first());
    }
}

/// Every edge target after the first costs at least one encoded character.
proof fn lemma_edges_cost_rest(edges: Seq<usize>)
    ensures
        edges.len() <= enc_edge_rest(edges).len(),
    decreases edges.len(),
{
    if edges.len() > 0 {
        lemma_dec_digits_are_digits(edges[0] as nat);
        lemma_edges_cost_rest(edges.drop_first());
    }
}

/// Every node after the first pays for its own fuel.
proof fn lemma_nodes_fuel_rest(nodes: Seq<NodeModel>)
    ensures
        nodes_fuel(nodes) <= enc_node_rest(nodes).len() + 1,
    decreases nodes.len(),
{
    if nodes.len() > 0 {
        lemma_edges_cost(nodes[0].edges);
        lemma_nodes_fuel_rest(nodes.drop_first());
    }
}

/// A node array never needs more fuel than its encoded length provides, plus
/// one.
proof fn lemma_nodes_fuel(nodes: Seq<NodeModel>)
    ensures
        nodes_fuel(nodes) <= enc_node_items(nodes).len() + 1,
{
    if nodes.len() > 0 {
        lemma_edges_cost(nodes[0].edges);
        lemma_nodes_fuel_rest(nodes.drop_first());
    }
}

/// Round trip, self-fueled: a serialized document, parsed with its own length
/// as fuel, gives back exactly what it was built from and consumes all input.
pub proof fn lemma_doc_round_trip_self(
    names: Seq<Seq<char>>,
    lists: Seq<Seq<Rule>>,
    nodes: Seq<NodeModel>,
)
    ensures
        spec_parse_doc(
            enc_doc(names, lists, nodes),
            0,
            enc_doc(names, lists, nodes).len(),
        ) == Some(((names, lists, nodes), enc_doc(names, lists, nodes).len() as int)),
{
    let s = enc_doc(names, lists, nodes);
    lemma_names_fuel(names);
    lemma_lists_fuel(lists);
    lemma_nodes_fuel(nodes);
    lemma_doc_round_trip(s, names, lists, nodes, s.len());
}
// ----- the executable parser -----

/// Relies on String's FromIterator over char: collecting characters yields
/// the string holding exactly those characters, in order.
#[verifier::external_body]
fn chars_to_string(v: Vec<char>) -> (r: String)
    ensures
        r@ == v@,
{
    v.into_iter().collect()
}

/// Whether `frag` sits at `pos` of `s`.
fn check_at(s: &Vec<char>, pos: usize, frag: &Vec<char>) -> (r: bool)
    ensures
        r == at(s@, pos as int, frag@),
        s@.len() <= usize::MAX,
{
    proof {
        assert(s@.len() == s.len());
    }
    if pos > s.len() || frag.len() > s.len() - pos {
        return false;
    }
    let mut k: usize = 0;
    while k < frag.len()
        invariant
            pos + frag@.len() <= s@.len(),
            s@.len() <= usize::MAX,
            k <= frag@.len(),
            forall|i: int| 0 <= i < k ==> s@[pos + i] == frag@[i],
        decreases frag@.len() - k,
    {
        if s[pos + k] != frag[k] {
            proof {
                if at(s@, pos as int, frag@) {
                    lemma_at_index(s@, pos as int, frag@, k as int);
                }
            }
            return false;
        }
        k = k + 1;
    }
    proof {
        assert(s@.subrange(pos as int, pos + frag@.len()) =~= frag@);
    }
    true
}

/// Consumes an exact fragment at `pos`, returning the position after it.
fn expect(s: &Vec<char>, pos: usize, frag: &Vec<char>) -> (r: Option<usize>)
    ensures
        match r {
            Some(e) => spec_expect(s@, pos as int, frag@) == Some(e as int),
            None => spec_expect(s@, pos as int, frag@) is None,
        },
{
    if check_at(s, pos, frag) {
        proof {
            assert(s@.len() == s.len());
        }
        Some(pos + frag.len())
    } else {
        None
    }
}

/// Parses an unsigned decimal number no greater than `max`.
fn parse_num(s: &Vec<char>, pos: usize, max: u64) -> (r: Option<(u64, usize)>)
    ensures
        match r {
            Some(v) => spec_parse_num(s@, pos as int, max as nat) == Some(
                (v.0 as nat, v.1 as int),
            ) && v.0 <= max,
            None => spec_parse_num(s@, pos as int, max as nat) is None,
        },
{
    if pos >= s.len() {
        return None;
    }
    let mut e: usize = pos;
    while e < s.len() && '0' <= s[e] && s[e] <= '9'
        invariant
            pos <= e <= s@.len(),
            forall|i: int| pos <= i < e ==> is_digit(#[trigger] s@[i]),
        decreases s@.len() - e,
    {
        e = e + 1;
    }
    proof {
        lemma_digit_end_of_run(s@, pos as int, e as int);
    }
    if e == pos {
        return None;
    }
    let ghost run = s@.subrange(pos as int, e as int);
    let mut acc: u64 = 0;
    let mut j: usize = pos;
    while j < e
        invariant
            pos <= j <= e <= s@.len(),
            forall|i: int| pos <= i < e ==> is_digit(#[trigger] s@[i]),
            run == s@.subrange(pos as int, e as int),
            digit_end(s@, pos as int) == e,
            acc <= max,
            acc as nat == val_of(s@.subrange(pos as int, j as int)),
        decreases e - j,
    {
        let c = s[j];
        proof {
            assert(is_digit(s@[j as int]));
            assert(s@.subrange(pos as int, j + 1).drop_last() =~= s@.subrange(
                pos as int,
                j as int,
            ));
            assert(s@.subrange(pos as int, j + 1).last() == s@[j as int]);
            assert(s@.subrange(pos as int, j + 1) + s@.subrange(j + 1, e as int) =~= run);
        }
        let d = (c as u32 - 48) as u64;
        proof {
            assert(d as nat == digit_val(c));
            assert(d <= 9);
        }
        if acc > max / 10 {
            proof {
                assert(acc * 10 >= (max / 10 + 1) * 10);
                assert((max / 10 + 1) * 10 > max);
                assert(val_of(s@.subrange(pos as int, j + 1)) > max);
                lemma_val_of_prefix(s@.subrange(pos as int, j + 1), s@.subrange(j + 1, e as int));
            }
            return None;
        }
        proof {
            assert(acc * 10 <= (max / 10) * 10);
            assert((max / 10) * 10 <= max);
        }
        let tmp = acc * 10;
        if d > max - tmp {
            proof {
                assert(val_of(s@.subrange(pos as int, j + 1)) > max);
                lemma_val_of_prefix(s@.subrange(pos as int, j + 1), s@.subrange(j + 1, e as int));
            }
            return None;
        }
        acc = tmp + d;
        j = j + 1;
    }
    proof {
        assert(acc as nat == val_of(run));
    }
    Some((acc, e))
}

/// Parses a string body up to its closing quote, undoing escapes.
fn parse_str_body(s: &Vec<char>, pos: usize) -> (r: Option<(Vec<char>, usize)>)
    ensures
        match r {
            Some(v) => spec_parse_str_body(s@, pos as int) == Some((v.0@, v.1 as int)),
            None => spec_parse_str_body(s@, pos as int) is None,
        },
    decreases s@.len() - pos,
{
    if pos >= s.len() {
        None
    } else if s[pos] == '"' {
        Some((Vec::new(), pos + 1))
    } else if s[pos] == '\\' {
        if s.len() - pos >= 2 {
            match parse_str_body(s, pos + 2) {
                Some(v) => {
                    let (t, e) = v;
                    let mut t = t;
                    let c = s[pos + 1];
                    t.insert(0, c);
                    proof {
                        assert(t@ =~= seq![s@[pos + 1]] + t@.drop_first());
                    }
                    Some((t, e))
                }
                None => None,
            }
        } else {
            None
        }
    } else {
        match parse_str_body(s, pos + 1) {
            Some(v) => {
                let (t, e) = v;
                let mut t = t;
                let c = s[pos];
                t.insert(0, c);
                proof {
                    assert(t@ =~= seq![s@[pos as int]] + t@.drop_first());
                }
                Some((t, e))
            }
            None => None,
        }
    }
}

/// Parses a quoted string.
fn parse_string(s: &Vec<char>, pos: usize) -> (r: Option<(String, usize)>)
    ensures
        match r {
            Some(v) => spec_parse_string(s@, pos as int) == Some((v.0@, v.1 as int)),
            None => spec_parse_string(s@, pos as int) is None,
        },
{
    if pos >= s.len() || s[pos] != '"' {
        return None;
    }
    match parse_str_body(s, pos + 1) {
        Some(v) => {
            let (t, e) = v;
            let name = chars_to_string(t);
            Some((name, e))
        }
        None => None,
    }
}

/// Parses the payload of a counting pattern.
fn parse_count_body(s: &Vec<char>, pos: usize) -> (r: Option<(u32, u32, usize)>)
    ensures
        match r {
            Some(v) => spec_parse_count_body(s@, pos as int) == Some((v.0, v.1, v.2 as int)),
            None => spec_parse_count_body(s@, pos as int) is None,
        },
{
    let ks = vec!['{', '"', 's', 't', 'a', 't', 'e', '"', ':'];
    proof {
        assert(ks@ =~= key_state());
    }
    let e1 = match expect(s, pos, &ks) {
        Some(e) => e,
        None => {
            return None;
        }
    };
    let r1 = match parse_num(s, e1, 0xffff_ffffu64) {
        Some(v) => v,
        None => {
            return None;
        }
    };
    let kn = vec![',', '"', 'n', 'u', 'm', 'b', 'e', 'r', '"', ':'];
    proof {
        assert(kn@ =~= key_number());
    }
    let e3 = match expect(s, r1.1, &kn) {
        Some(e) => e,
        None => {
            return None;
        }
    };
    let r2 = match parse_num(s, e3, 0xffff_ffffu64) {
        Some(v) => v,
        None => {
            return None;
        }
    };
    let cl = vec!['}', '}'];
    proof {
        assert(cl@ =~= seq!['}', '}']);
    }
    let e5 = match expect(s, r2.1, &cl) {
        Some(e) => e,
        None => {
            return None;
        }
    };
    Some((r1.0 as u32, r2.0 as u32, e5))
}
/// Parses a pattern; `fuel` bounds the nesting followed.
fn parse_pattern(s: &Vec<char>, pos: usize, fuel: usize) -> (r: Option<(Pattern, usize)>)
    ensures
        match r {
            Some(v) => spec_parse_pattern(s@, pos as int, fuel as nat) == Some(
                (v.0, v.1 as int),
            ),
            None => spec_parse_pattern(s@, pos as int, fuel as nat) is None,
        },
    decreases fuel,
{
    if fuel == 0 {
        return None;
    }
    let hw = vec!['"', 'W', 'i', 'l', 'd', 'c', 'a', 'r', 'd', '"'];
    proof {
        assert(hw@ =~= lit_wildcard());
    }
    if check_at(s, pos, &hw) {
        return Some((Pattern::Wildcard, pos + 10));
    }
    let he = vec!['{', '"', 'E', 'q', 'u', 'a', 'l', '"', ':'];
    proof {
        assert(he@ =~= head_equal());
    }
    if check_at(s, pos, &he) {
        return match parse_count_body(s, pos + 9) {
            Some(v) => Some((Pattern::Equal { state: v.0, number: v.1 }, v.2)),
            None => None,
        };
    }
    let hg = vec!['{', '"', 'G', 't', 'h', '"', ':'];
    proof {
        assert(hg@ =~= head_gth());
    }
    if check_at(s, pos, &hg) {
        return match parse_count_body(s, pos + 7) {
            Some(v) => Some((Pattern::Gth { state: v.0, number: v.1 }, v.2)),
            None => None,
        };
    }
    let hl = vec!['{', '"', 'L', 't', 'h', '"', ':'];
    proof {
        assert(hl@ =~= head_lth());
    }
    if check_at(s, pos, &hl) {
        return match parse_count_body(s, pos + 7) {
            Some(v) => Some((Pattern::Lth { state: v.0, number: v.1 }, v.2)),
            None => None,
        };
    }
    let hge = vec!['{', '"', 'G', 'e', 'q', '"', ':'];
    proof {
        assert(hge@ =~= head_geq());
    }
    if check_at(s, pos, &hge) {
        return match parse_count_body(s, pos + 7) {
            Some(v) => Some((Pattern::Geq { state: v.0, number: v.1 }, v.2)),
            None => None,
        };
    }
    let hle = vec!['{', '"', 'L', 'e', 'q', '"', ':'];
    proof {
        assert(hle@ =~= head_leq());
    }
    if check_at(s, pos, &hle) {
        return match parse_count_body(s, pos + 7) {
            Some(v) => Some((Pattern::Leq { state: v.0, number: v.1 }, v.2)),
            None => None,
        };
    }
    let ho = vec!['{', '"', 'O', 'r', '"', ':', '['];
    proof {
        assert(ho@ =~= head_or());
    }
    if check_at(s, pos, &ho) {
        let ra = match parse_pattern(s, pos + 7, fuel - 1) {
            Some(v) => v,
            None => {
                return None;
            }
        };
        let cm = vec![','];
        proof {
            assert(cm@ =~= seq![',']);
        }
        let e2 = match expect(s, ra.1, &cm) {
            Some(e) => e,
            None => {
                return None;
            }
        };
        let rb = match parse_pattern(s, e2, fuel - 1) {
            Some(v) => v,
            None => {
                return None;
            }
        };
        let cl = vec![']', '}'];
        proof {
            assert(cl@ =~= seq![']', '}']);
        }
        let e4 = match expect(s, rb.1, &cl) {
            Some(e) => e,
            None => {
                return None;
            }
        };
        return Some((Pattern::Or(Box::new(ra.0), Box::new(rb.0)), e4));
    }
    let ha = vec!['{', '"', 'A', 'n', 'd', '"', ':', '['];
    proof {
        assert(ha@ =~= head_and());
    }
    if check_at(s, pos, &ha) {
        let ra = match parse_pattern(s, pos + 8, fuel - 1) {
            Some(v) => v,
            None => {
                return None;
            }
        };
        let cm = vec![','];
        proof {
            assert(cm@ =~= seq![',']);
        }
        let e2 = match expect(s, ra.1, &cm) {
            Some(e) => e,
            None => {
                return None;
            }
        };
        let rb = match parse_pattern(s, e2, fuel - 1) {
            Some(v) => v,
            None => {
                return None;
            }
        };
        let cl = vec![']', '}'];
        proof {
            assert(cl@ =~= seq![']', '}']);
        }
        let e4 = match expect(s, rb.1, &cl) {
            Some(e) => e,
            None => {
                return None;
            }
        };
        return Some((Pattern::And(Box::new(ra.0), Box::new(rb.0)), e4));
    }
    let hn = vec!['{', '"', 'N', 'o', 't', '"', ':'];
    proof {
        assert(hn@ =~= head_not());
    }
    if check_at(s, pos, &hn) {
        let ra = match parse_pattern(s, pos + 7, fuel - 1) {
            Some(v) => v,
            None => {
                return None;
            }
        };
        let cb = vec!['}'];
        proof {
            assert(cb@ =~= seq!['}']);
        }
        let e2 = match expect(s, ra.1, &cb) {
            Some(e) => e,
            None => {
                return None;
            }
        };
        return Some((Pattern::Not(Box::new(ra.0)), e2));
    }
    None
}

/// Parses one rule object.
fn parse_rule(s: &Vec<char>, pos: usize, fuel: usize) -> (r: Option<(Rule, usize)>)
    ensures
        match r {
            Some(v) => spec_parse_rule(s@, pos as int, fuel as nat) == Some((v.0, v.1 as int)),
            None => spec_parse_rule(s@, pos as int, fuel as nat) is None,
        },
{
    let kp = vec!['{', '"', 'p', 'a', 't', 't', 'e', 'r', 'n', '"', ':'];
    proof {
        assert(kp@ =~= key_pattern());
    }
    let e1 = match expect(s, pos, &kp) {
        Some(e) => e,
        None => {
            return None;
        }
    };
    let rp = match parse_pattern(s, e1, fuel) {
        Some(v) => v,
        None => {
            return None;
        }
    };
    let kr = vec![',', '"', 'r', 'e', 'p', 'l', 'a', 'c', 'e', 'm', 'e', 'n', 't', '"', ':'];
    proof {
        assert(kr@ =~= key_replacement());
    }
    let e3 = match expect(s, rp.1, &kr) {
        Some(e) => e,
        None => {
            return None;
        }
    };
    let rn = match parse_num(s, e3, 0xffff_ffffu64) {
        Some(v) => v,
        None => {
            return None;
        }
    };
    let cb = vec!['}'];
    proof {
        assert(cb@ =~= seq!['}']);
    }
    let e5 = match expect(s, rn.1, &cb) {
        Some(e) => e,
        None => {
            return None;
        }
    };
    Some((Rule { pattern: rp.0, replacement: rn.0 as u32 }, e5))
}

/// Parses the tail of a rule array, consuming its `]`.
fn parse_rule_rest(s: &Vec<char>, pos: usize, fuel: usize) -> (r: Option<(Vec<Rule>, usize)>)
    ensures
        match r {
            Some(v) => spec_parse_rule_rest(s@, pos as int, fuel as nat) == Some(
                (v.0@, v.1 as int),
            ),
            None => spec_parse_rule_rest(s@, pos as int, fuel as nat) is None,
        },
    decreases fuel,
{
    if fuel == 0 {
        return None;
    }
    let br = vec![']'];
    proof {
        assert(br@ =~= seq![']']);
    }
    if check_at(s, pos, &br) {
        return Some((Vec::new(), pos + 1));
    }
    let cm = vec![','];
    proof {
        assert(cm@ =~= seq![',']);
    }
    if check_at(s, pos, &cm) {
        let rr = match parse_rule(s, pos + 1, fuel - 1) {
            Some(v) => v,
            None => {
                return None;
            }
        };
        let rs = match parse_rule_rest(s, rr.1, fuel - 1) {
            Some(v) => v,
            None => {
                return None;
            }
        };
        let (mut items, e2) = rs;
        items.insert(0, rr.0);
        proof {
            assert(items@ =~= seq![items@[0]] + items@.drop_first());
        }
        return Some((items, e2));
    }
    None
}

/// Parses a rule array from just after its `[`, consuming the `]`.
fn parse_rule_region(s: &Vec<char>, pos: usize, fuel: usize) -> (r: Option<(Vec<Rule>, usize)>)
    ensures
        match r {
            Some(v) => spec_parse_rule_region(s@, pos as int, fuel as nat) == Some(
                (v.0@, v.1 as int),
            ),
            None => spec_parse_rule_region(s@, pos as int, fuel as nat) is None,
        },
{
    let br = vec![']'];
    proof {
        assert(br@ =~= seq![']']);
    }
    if check_at(s, pos, &br) {
        return Some((Vec::new(), pos + 1));
    }
    let rr = match parse_rule(s, pos, fuel) {
        Some(v) => v,
        None => {
            return None;
        }
    };
    let rs = match parse_rule_rest(s, rr.1, fuel) {
        Some(v) => v,
        None => {
            return None;
        }
    };
    let (mut items, e2) = rs;
    items.insert(0, rr.0);
    proof {
        assert(items@ =~= seq![items@[0]] + items@.drop_first());
    }
    Some((items, e2))
}
/// Parses the tail of a name array, consuming its `]`.
fn parse_name_rest(s: &Vec<char>, pos: usize, fuel: usize) -> (r: Option<(Vec<String>, usize)>)
    ensures
        match r {
            Some(v) => spec_parse_name_rest(s@, pos as int, fuel as nat) == Some(
                (names_model(v.0@), v.1 as int),
            ),
            None => spec_parse_name_rest(s@, pos as int, fuel as nat) is None,
        },
    decreases fuel,
{
    if fuel == 0 {
        return None;
    }
    let br = vec![']'];
    proof {
        assert(br@ =~= seq![']']);
    }
    if check_at(s, pos, &br) {
        let empty: Vec<String> = Vec::new();
        proof {
            assert(names_model(empty@) =~= Seq::<Seq<char>>::empty());
        }
        return Some((empty, pos + 1));
    }
    let cm = vec![','];
    proof {
        assert(cm@ =~= seq![',']);
    }
    if check_at(s, pos, &cm) {
        let rr = match parse_string(s, pos + 1) {
            Some(v) => v,
            None => {
                return None;
            }
        };
        let rs = match parse_name_rest(s, rr.1, fuel - 1) {
            Some(v) => v,
            None => {
                return None;
            }
        };
        let (mut items, e2) = rs;
        let ghost before = names_model(items@);
        items.insert(0, rr.0);
        proof {
            assert(names_model(items@) =~= seq![items@[0]@] + before);
        }
        return Some((items, e2));
    }
    None
}

/// Parses a name array from just after its `[`, consuming the `]`.
fn parse_name_region(s: &Vec<char>, pos: usize, fuel: usize) -> (r: Option<(Vec<String>, usize)>)
    ensures
        match r {
            Some(v) => spec_parse_name_region(s@, pos as int, fuel as nat) == Some(
                (names_model(v.0@), v.1 as int),
            ),
            None => spec_parse_name_region(s@, pos as int, fuel as nat) is None,
        },
{
    let br = vec![']'];
    proof {
        assert(br@ =~= seq![']']);
    }
    if check_at(s, pos, &br) {
        let empty: Vec<String> = Vec::new();
        proof {
            assert(names_model(empty@) =~= Seq::<Seq<char>>::empty());
        }
        return Some((empty, pos + 1));
    }
    let rr = match parse_string(s, pos) {
        Some(v) => v,
        None => {
            return None;
        }
    };
    let rs = match parse_name_rest(s, rr.1, fuel) {
        Some(v) => v,
        None => {
            return None;
        }
    };
    let (mut items, e2) = rs;
    let ghost before = names_model(items@);
    items.insert(0, rr.0);
    proof {
        assert(names_model(items@) =~= seq![items@[0]@] + before);
    }
    Some((items, e2))
}

/// Parses the tail of an edge array, consuming its `]`.
fn parse_edge_rest(s: &Vec<char>, pos: usize, fuel: usize) -> (r: Option<(Vec<usize>, usize)>)
    ensures
        match r {
            Some(v) => spec_parse_edge_rest(s@, pos as int, fuel as nat) == Some(
                (v.0@, v.1 as int),
            ),
            None => spec_parse_edge_rest(s@, pos as int, fuel as nat) is None,
        },
    decreases fuel,
{
    if fuel == 0 {
        return None;
    }
    let br = vec![']'];
    proof {
        assert(br@ =~= seq![']']);
    }
    if check_at(s, pos, &br) {
        return Some((Vec::new(), pos + 1));
    }
    let cm = vec![','];
    proof {
        assert(cm@ =~= seq![',']);
    }
    if check_at(s, pos, &cm) {
        let rr = match parse_num(s, pos + 1, usize::MAX as u64) {
            Some(v) => v,
            None => {
                return None;
            }
        };
        let rs = match parse_edge_rest(s, rr.1, fuel - 1) {
            Some(v) => v,
            None => {
                return None;
            }
        };
        let (mut items, e2) = rs;
        items.insert(0, rr.0 as usize);
        proof {
            assert(items@ =~= seq![items@[0]] + items@.drop_first());
        }
        return Some((items, e2));
    }
    None
}

/// Parses an edge array from just after its `[`, consuming the `]`.
fn parse_edge_region(s: &Vec<char>, pos: usize, fuel: usize) -> (r: Option<(Vec<usize>, usize)>)
    ensures
        match r {
            Some(v) => spec_parse_edge_region(s@, pos as int, fuel as nat) == Some(
                (v.0@, v.1 as int),
            ),
            None => spec_parse_edge_region(s@, pos as int, fuel as nat) is None,
        },
{
    let br = vec![']'];
    proof {
        assert(br@ =~= seq![']']);
    }
    if check_at(s, pos, &br) {
        return Some((Vec::new(), pos + 1));
    }
    let rr = match parse_num(s, pos, usize::MAX as u64) {
        Some(v) => v,
        None => {
            return None;
        }
    };
    let rs = match parse_edge_rest(s, rr.1, fuel) {
        Some(v) => v,
        None => {
            return None;
        }
    };
    let (mut items, e2) = rs;
    items.insert(0, rr.0 as usize);
    proof {
        assert(items@ =~= seq![items@[0]] + items@.drop_first());
    }
    Some((items, e2))
}

/// Parses one node object.
fn parse_node(s: &Vec<char>, pos: usize, fuel: usize) -> (r: Option<(Node, usize)>)
    ensures
        match r {
            Some(v) => spec_parse_node(s@, pos as int, fuel as nat) == Some((v.0@, v.1 as int)),
            None => spec_parse_node(s@, pos as int, fuel as nat) is None,
        },
{
    let kr = vec!['{', '"', 'r', 'e', 'a', 'd', '"', ':'];
    proof {
        assert(kr@ =~= key_read());
    }
    let e1 = match expect(s, pos, &kr) {
        Some(e) => e,
        None => {
            return None;
        }
    };
    let r1 = match parse_num(s, e1, 0xffff_ffffu64) {
        Some(v) => v,
        None => {
            return None;
        }
    };
    let kw = vec![',', '"', 'w', 'r', 'i', 't', 'e', '"', ':'];
    proof {
        assert(kw@ =~= key_write());
    }
    let e3 = match expect(s, r1.1, &kw) {
        Some(e) => e,
        None => {
            return None;
        }
    };
    let r2 = match parse_num(s, e3, 0xffff_ffffu64) {
        Some(v) => v,
        None => {
            return None;
        }
    };
    let ke = vec![',', '"', 'e', 'd', 'g', 'e', 's', '"', ':', '['];
    proof {
        assert(ke@ =~= key_edges());
    }
    let e5 = match expect(s, r2.1, &ke) {
        Some(e) => e,
        None => {
            return None;
        }
    };
    let r3 = match parse_edge_region(s, e5, fuel) {
        Some(v) => v,
        None => {
            return None;
        }
    };
    let cb = vec!['}'];
    proof {
        assert(cb@ =~= seq!['}']);
    }
    let e7 = match expect(s, r3.1, &cb) {
        Some(e) => e,
        None => {
            return None;
        }
    };
    Some((Node { read: r1.0 as u32, write: r2.0 as u32, edges: r3.0 }, e7))
}

/// Parses the tail of a node array, consuming its `]`.
fn parse_node_rest(s: &Vec<char>, pos: usize, fuel: usize) -> (r: Option<(Vec<Node>, usize)>)
    ensures
        match r {
            Some(v) => spec_parse_node_rest(s@, pos as int, fuel as nat) == Some(
                (nodes_model(v.0@), v.1 as int),
            ),
            None => spec_parse_node_rest(s@, pos as int, fuel as nat) is None,
        },
    decreases fuel,
{
    if fuel == 0 {
        return None;
    }
    let br = vec![']'];
    proof {
        assert(br@ =~= seq![']']);
    }
    if check_at(s, pos, &br) {
        let empty: Vec<Node> = Vec::new();
        proof {
            assert(nodes_model(empty@) =~= Seq::<NodeModel>::empty());
        }
        return Some((empty, pos + 1));
    }
    let cm = vec![','];
    proof {
        assert(cm@ =~= seq![',']);
    }
    if check_at(s, pos, &cm) {
        let rr = match parse_node(s, pos + 1, fuel - 1) {
            Some(v) => v,
            None => {
                return None;
            }
        };
        let rs = match parse_node_rest(s, rr.1, fuel - 1) {
            Some(v) => v,
            None => {
                return None;
            }
        };
        let (mut items, e2) = rs;
        let ghost before = nodes_model(items@);
        items.insert(0, rr.0);
        proof {
            assert(nodes_model(items@) =~= seq![items@[0]@] + before);
        }
        return Some((items, e2));
    }
    None
}

/// Parses a node array from just after its `[`, consuming the `]`.
fn parse_node_region(s: &Vec<char>, pos: usize, fuel: usize) -> (r: Option<(Vec<Node>, usize)>)
    ensures
        match r {
            Some(v) => spec_parse_node_region(s@, pos as int, fuel as nat) == Some(
                (nodes_model(v.0@), v.1 as int),
            ),
            None => spec_parse_node_region(s@, pos as int, fuel as nat) is None,
        },
{
    let br = vec![']'];
    proof {
        assert(br@ =~= seq![']']);
    }
    if check_at(s, pos, &br) {
        let empty: Vec<Node> = Vec::new();
        proof {
            assert(nodes_model(empty@) =~= Seq::<NodeModel>::empty());
        }
        return Some((empty, pos + 1));
    }
    let rr = match parse_node(s, pos, fuel) {
        Some(v) => v,
        None => {
            return None;
        }
    };
    let rs = match parse_node_rest(s, rr.1, fuel) {
        Some(v) => v,
        None => {
            return None;
        }
    };
    let (mut items, e2) = rs;
    let ghost before = nodes_model(items@);
    items.insert(0, rr.0);
    proof {
        assert(nodes_model(items@) =~= seq![items@[0]@] + before);
    }
    Some((items, e2))
}

/// Parses one state's rule array, brackets included.
fn parse_rule_list(s: &Vec<char>, pos: usize, fuel: usize) -> (r: Option<(Vec<Rule>, usize)>)
    ensures
        match r {
            Some(v) => spec_parse_rule_list(s@, pos as int, fuel as nat) == Some(
                (v.0@, v.1 as int),
            ),
            None => spec_parse_rule_list(s@, pos as int, fuel as nat) is None,
        },
{
    let ob = vec!['['];
    proof {
        assert(ob@ =~= seq!['[']);
    }
    if check_at(s, pos, &ob) {
        parse_rule_region(s, pos + 1, fuel)
    } else {
        None
    }
}

/// Parses the tail of the table's outer array, consuming its `]`.
fn parse_lists_rest(s: &Vec<char>, pos: usize, fuel: usize) -> (r: Option<
    (Vec<Vec<Rule>>, usize),
>)
    ensures
        match r {
            Some(v) => spec_parse_lists_rest(s@, pos as int, fuel as nat) == Some(
                (rule_lists(v.0@), v.1 as int),
            ),
            None => spec_parse_lists_rest(s@, pos as int, fuel as nat) is None,
        },
    decreases fuel,
{
    if fuel == 0 {
        return None;
    }
    let br = vec![']'];
    proof {
        assert(br@ =~= seq![']']);
    }
    if check_at(s, pos, &br) {
        let empty: Vec<Vec<Rule>> = Vec::new();
        proof {
            assert(rule_lists(empty@) =~= Seq::<Seq<Rule>>::empty());
        }
        return Some((empty, pos + 1));
    }
    let cm = vec![','];
    proof {
        assert(cm@ =~= seq![',']);
    }
    if check_at(s, pos, &cm) {
        let rr = match parse_rule_list(s, pos + 1, fuel - 1) {
            Some(v) => v,
            None => {
                return None;
            }
        };
        let rs = match parse_lists_rest(s, rr.1, fuel - 1) {
            Some(v) => v,
            None => {
                return None;
            }
        };
        let (mut items, e2) = rs;
        let ghost before = rule_lists(items@);
        items.insert(0, rr.0);
        proof {
            assert(rule_lists(items@) =~= seq![items@[0]@] + before);
        }
        return Some((items, e2));
    }
    None
}

/// Parses the table's outer array from just after its `[`, consuming the `]`.
fn parse_lists_region(s: &Vec<char>, pos: usize, fuel: usize) -> (r: Option<
    (Vec<Vec<Rule>>, usize),
>)
    ensures
        match r {
            Some(v) => spec_parse_lists_region(s@, pos as int, fuel as nat) == Some(
                (rule_lists(v.0@), v.1 as int),
            ),
            None => spec_parse_lists_region(s@, pos as int, fuel as nat) is None,
        },
{
    let br = vec![']'];
    proof {
        assert(br@ =~= seq![']']);
    }
    if check_at(s, pos, &br) {
        let empty: Vec<Vec<Rule>> = Vec::new();
        proof {
            assert(rule_lists(empty@) =~= Seq::<Seq<Rule>>::empty());
        }
        return Some((empty, pos + 1));
    }
    let rr = match parse_rule_list(s, pos, fuel) {
        Some(v) => v,
        None => {
            return None;
        }
    };
    let rs = match parse_lists_rest(s, rr.1, fuel) {
        Some(v) => v,
        None => {
            return None;
        }
    };
    let (mut items, e2) = rs;
    let ghost before = rule_lists(items@);
    items.insert(0, rr.0);
    proof {
        assert(rule_lists(items@) =~= seq![items@[0]@] + before);
    }
    Some((items, e2))
}
/// Parses the rule table object.
fn parse_ruleset(s: &Vec<char>, pos: usize, fuel: usize) -> (r: Option<
    (Vec<String>, Vec<Vec<Rule>>, usize),
>)
    ensures
        match r {
            Some(v) => spec_parse_ruleset(s@, pos as int, fuel as nat) == Some(
                ((names_model(v.0@), rule_lists(v.1@)), v.2 as int),
            ),
            None => spec_parse_ruleset(s@, pos as int, fuel as nat) is None,
        },
{
    let kn = vec!['{', '"', 'n', 'a', 'm', 'e', 's', '"', ':', '['];
    proof {
        assert(kn@ =~= key_names());
    }
    let e1 = match expect(s, pos, &kn) {
        Some(e) => e,
        None => {
            return None;
        }
    };
    let rn = match parse_name_region(s, e1, fuel) {
        Some(v) => v,
        None => {
            return None;
        }
    };
    let kr = vec![',', '"', 'r', 'u', 'l', 'e', 's', '"', ':', '['];
    proof {
        assert(kr@ =~= key_rules());
    }
    let e3 = match expect(s, rn.1, &kr) {
        Some(e) => e,
        None => {
            return None;
        }
    };
    let rl = match parse_lists_region(s, e3, fuel) {
        Some(v) => v,
        None => {
            return None;
        }
    };
    let cb = vec!['}'];
    proof {
        assert(cb@ =~= seq!['}']);
    }
    let e5 = match expect(s, rl.1, &cb) {
        Some(e) => e,
        None => {
            return None;
        }
    };
    Some((rn.0, rl.0, e5))
}

/// Parses the graph object.
fn parse_graph(s: &Vec<char>, pos: usize, fuel: usize) -> (r: Option<(Vec<Node>, usize)>)
    ensures
        match r {
            Some(v) => spec_parse_graph(s@, pos as int, fuel as nat) == Some(
                (nodes_model(v.0@), v.1 as int),
            ),
            None => spec_parse_graph(s@, pos as int, fuel as nat) is None,
        },
{
    let kn = vec!['{', '"', 'n', 'o', 'd', 'e', 's', '"', ':', '['];
    proof {
        assert(kn@ =~= key_nodes());
    }
    let e1 = match expect(s, pos, &kn) {
        Some(e) => e,
        None => {
            return None;
        }
    };
    let rn = match parse_node_region(s, e1, fuel) {
        Some(v) => v,
        None => {
            return None;
        }
    };
    let cb = vec!['}'];
    proof {
        assert(cb@ =~= seq!['}']);
    }
    let e3 = match expect(s, rn.1, &cb) {
        Some(e) => e,
        None => {
            return None;
        }
    };
    Some((rn.0, e3))
}

/// Parses a whole automaton document.
fn parse_doc(s: &Vec<char>, pos: usize, fuel: usize) -> (r: Option<
    (Vec<String>, Vec<Vec<Rule>>, Vec<Node>, usize),
>)
    ensures
        match r {
            Some(v) => spec_parse_doc(s@, pos as int, fuel as nat) == Some(
                ((names_model(v.0@), rule_lists(v.1@), nodes_model(v.2@)), v.3 as int),
            ),
            None => spec_parse_doc(s@, pos as int, fuel as nat) is None,
        },
{
    let kr = vec!['{', '"', 'r', 'u', 'l', 'e', 's', '"', ':'];
    proof {
        assert(kr@ =~= key_doc_rules());
    }
    let e1 = match expect(s, pos, &kr) {
        Some(e) => e,
        None => {
            return None;
        }
    };
    let rr = match parse_ruleset(s, e1, fuel) {
        Some(v) => v,
        None => {
            return None;
        }
    };
    let kg = vec![',', '"', 'g', 'r', 'a', 'p', 'h', '"', ':'];
    proof {
        assert(kg@ =~= key_doc_graph());
    }
    let e3 = match expect(s, rr.2, &kg) {
        Some(e) => e,
        None => {
            return None;
        }
    };
    let rg = match parse_graph(s, e3, fuel) {
        Some(v) => v,
        None => {
            return None;
        }
    };
    let cb = vec!['}'];
    proof {
        assert(cb@ =~= seq!['}']);
    }
    let e5 = match expect(s, rg.1, &cb) {
        Some(e) => e,
        None => {
            return None;
        }
    };
    Some((rr.0, rr.1, rg.0, e5))
}

impl Automaton {
    /// Parses a serialized document and re-runs rule table validation, as
    /// loading must. Fails on malformed input, on trailing text, and on a
    /// table with a state that lacks a wildcard fallback.
    pub fn deserialize(s: &Vec<char>) -> (r: Option<Automaton>)
        ensures
            match spec_parse_doc(s@, 0, s@.len() as nat) {
                Some(doc) => if doc.1 == s@.len() && wildcard_per_state(doc.0.1) {
                    match r {
                        Some(a) => names_model(a.rules.names@) == doc.0.0 && rule_lists(
                            a.rules.rules@,
                        ) == doc.0.1 && a.graph@ == doc.0.2 && a.rules.valid(),
                        None => false,
                    }
                } else {
                    r is None
                },
                None => r is None,
            },
    {
        let fuel = s.len();
        let rd = match parse_doc(s, 0, fuel) {
            Some(v) => v,
            None => {
                return None;
            }
        };
        if rd.3 != s.len() {
            return None;
        }
        let (names, lists, nodes, _end) = rd;
        let rs = match Ruleset::new(lists, names) {
            Some(v) => v,
            None => {
                return None;
            }
        };
        let graph = Graph { nodes };
        proof {
            assert(graph@ =~= nodes_model(graph.nodes@));
        }
        Some(Automaton { rules: rs, graph })
    }
}

} // verus!

//! The stylesheet grammar: a rule is `selector { declarations }`; a
//! selector is components separated by whitespace (descendant) or `>`
//! (direct child); a component is `*`, a tag name, or a `.class`; a
//! declaration is `name: <digits><unit>;`. Parsing is specified by the
//! recursive functions below and the executable parser is proved to return
//! exactly what they describe.

use vstd::prelude::*;
use vstd::string::StringSliceAdditionalSpecFns;
use crate::selector::{Combinator, CompV, Component, PartV, Selector, SelectorPart};
use crate::style::{DeclV, Declaration, Rule, RuleV, Stylesheet};

verus! {

/// Why a stylesheet source failed to parse.
#[derive(Debug, Clone, Copy, PartialEq, Eq, Structural)]
pub enum ParseError {
    /// The source ended where a selector, block or declaration was open.
    UnexpectedEnd,
    /// A byte that no selector component or declaration may start with,
    /// or an empty component where one was required.
    UnexpectedToken,
    /// A declaration name was not followed by `:`.
    ExpectedColon,
    /// A declaration was not terminated by `;`.
    ExpectedSemicolon,
    /// A declaration value was not 1 to 10 digits.
    BadValue,
}

/// Stylesheet whitespace: space, tab, line feed, carriage return.
pub open spec fn is_ws(b: u8) -> bool {
    b == 32 || b == 9 || b == 10 || b == 13
}

/// Identifier bytes: ASCII letters, digits, `-` and `_`.
pub open spec fn is_ident_byte(b: u8) -> bool {
    (97 <= b <= 122) || (65 <= b <= 90) || (48 <= b <= 57) || b == 45 || b == 95
}

/// ASCII decimal digits.
pub open spec fn is_digit(b: u8) -> bool {
    48 <= b <= 57
}

/// The first position at or after `pos` holding no whitespace.
pub open spec fn skip_ws_spec(s: Seq<u8>, pos: int) -> int
    decreases s.len() - pos,
{
    if 0 <= pos < s.len() && is_ws(s[pos]) {
        skip_ws_spec(s, pos + 1)
    } else {
        pos
    }
}

/// The end of the identifier starting at `pos`: the first position at or
/// after `pos` holding no identifier byte.
pub open spec fn ident_end(s: Seq<u8>, pos: int) -> int
    decreases s.len() - pos,
{
    if 0 <= pos < s.len() && is_ident_byte(s[pos]) {
        ident_end(s, pos + 1)
    } else {
        pos
    }
}

/// The end of the digit run starting at `pos`.
pub open spec fn digits_end(s: Seq<u8>, pos: int) -> int
    decreases s.len() - pos,
{
    if 0 <= pos < s.len() && is_digit(s[pos]) {
        digits_end(s, pos + 1)
    } else {
        pos
    }
}

/// The number the digit run `s[a..b]` denotes.
pub open spec fn digits_val(s: Seq<u8>, a: int, b: int) -> int
    decreases b - a,
{
    if a >= b {
        0
    } else {
        digits_val(s, a, b - 1) * 10 + (s[b - 1] as int - 48)
    }
}

/// One selector component at `pos`: `*`, `.class`, or a tag name.
pub open spec fn parse_comp_spec(s: Seq<u8>, pos: int) -> Result<(CompV, int), ParseError> {
    if !(0 <= pos < s.len()) {
        Err(ParseError::UnexpectedEnd)
    } else if s[pos] == 42 {  // '*'
        Ok((CompV::Universal, pos + 1))
    } else if s[pos] == 46 {  // '.'
        let e = ident_end(s, pos + 1);
        if e == pos + 1 {
            Err(ParseError::UnexpectedToken)
        } else {
            Ok((CompV::Class(s.subrange(pos + 1, e)), e))
        }
    } else {
        let e = ident_end(s, pos);
        if e == pos {
            Err(ParseError::UnexpectedToken)
        } else {
            Ok((CompV::Tag(s.subrange(pos, e)), e))
        }
    }
}

/// The rest of a selector after its components `acc`: ends at `{`, takes
/// `> component` as a direct child link, and a whitespace-separated
/// component as a descendant link.
pub open spec fn parse_sel_rest_spec(s: Seq<u8>, pos: int, acc: Seq<PartV>) -> Result<
    (Seq<PartV>, int),
    ParseError,
>
    decreases s.len() - pos,
{
    let p = skip_ws_spec(s, pos);
    if p >= s.len() {
        Err(ParseError::UnexpectedEnd)
    } else if s[p] == 123 {  // '{'
        Ok((acc, p + 1))
    } else if s[p] == 62 {  // '>'
        let p2 = skip_ws_spec(s, p + 1);
        match parse_comp_spec(s, p2) {
            Err(e) => Err(e),
            Ok((c, p3)) => if p3 > pos && p3 <= s.len() {
                parse_sel_rest_spec(s, p3, acc.push(PartV { comb: Combinator::Child, comp: c }))
            } else {
                Err(ParseError::UnexpectedToken)
            },
        }
    } else if p > pos {
        match parse_comp_spec(s, p) {
            Err(e) => Err(e),
            Ok((c, p3)) => if p3 > pos && p3 <= s.len() {
                parse_sel_rest_spec(
                    s,
                    p3,
                    acc.push(PartV { comb: Combinator::Descendant, comp: c }),
                )
            } else {
                Err(ParseError::UnexpectedToken)
            },
        }
    } else {
        Err(ParseError::UnexpectedToken)
    }
}

/// The declarations of a block after those in `acc`: ends at `}`; each
/// declaration is `name : digits unit ;` with the unit letters ignored.
pub open spec fn parse_decls_rest_spec(s: Seq<u8>, pos: int, acc: Seq<DeclV>) -> Result<
    (Seq<DeclV>, int),
    ParseError,
>
    decreases s.len() - pos,
{
    let p = skip_ws_spec(s, pos);
    if p >= s.len() {
        Err(ParseError::UnexpectedEnd)
    } else if s[p] == 125 {  // '}'
        Ok((acc, p + 1))
    } else {
        let e = ident_end(s, p);
        if e == p {
            Err(ParseError::UnexpectedToken)
        } else {
            let name = s.subrange(p, e);
            let p2 = skip_ws_spec(s, e);
            if !(p2 < s.len() && s[p2] == 58) {  // ':'
                Err(ParseError::ExpectedColon)
            } else {
                let p3 = skip_ws_spec(s, p2 + 1);
                let de = digits_end(s, p3);
                if de == p3 || de - p3 > 10 {
                    Err(ParseError::BadValue)
                } else {
                    let value = digits_val(s, p3, de) as u64;
                    let ue = ident_end(s, de);
                    let p4 = skip_ws_spec(s, ue);
                    if !(p4 < s.len() && s[p4] == 59) {  // ';'
                        Err(ParseError::ExpectedSemicolon)
                    } else if p4 + 1 > pos {
                        parse_decls_rest_spec(s, p4 + 1, acc.push(DeclV { name, value }))
                    } else {
                        Err(ParseError::UnexpectedToken)
                    }
                }
            }
        }
    }
}

/// The rules of a stylesheet after those in `acc`: whitespace-separated
/// `selector { declarations }` blocks until the source ends.
pub open spec fn parse_rules_rest_spec(s: Seq<u8>, pos: int, acc: Seq<RuleV>) -> Result<
    Seq<RuleV>,
    ParseError,
>
    decreases s.len() - pos,
{
    let p = skip_ws_spec(s, pos);
    if p >= s.len() {
        Ok(acc)
    } else {
        match parse_comp_spec(s, p) {
            Err(e) => Err(e),
            Ok((c0, p1)) => match parse_sel_rest_spec(
                s,
                p1,
                seq![PartV { comb: Combinator::Descendant, comp: c0 }],
            ) {
                Err(e) => Err(e),
                Ok((parts, p2)) => match parse_decls_rest_spec(s, p2, Seq::empty()) {
                    Err(e) => Err(e),
                    Ok((decls, p3)) => if p3 > pos && p3 <= s.len() {
                        parse_rules_rest_spec(s, p3, acc.push(RuleV { parts, decls }))
                    } else {
                        Err(ParseError::UnexpectedToken)
                    },
                },
            },
        }
    }
}

/// What a stylesheet source means: its rule sequence, or the first error.
pub open spec fn parse_spec(s: Seq<u8>) -> Result<Seq<RuleV>, ParseError> {
    parse_rules_rest_spec(s, 0, Seq::empty())
}

/// Whether `b` is stylesheet whitespace.
fn ws_byte(b: u8) -> (r: bool)
    ensures
        r == is_ws(b),
{
    b == 32 || b == 9 || b == 10 || b == 13
}

/// Whether `b` is an identifier byte.
fn ident_byte(b: u8) -> (r: bool)
    ensures
        r == is_ident_byte(b),
{
    (97 <= b && b <= 122) || (65 <= b && b <= 90) || (48 <= b && b <= 57) || b == 45 || b == 95
}

/// Whether `b` is a decimal digit.
fn digit_byte(b: u8) -> (r: bool)
    ensures
        r == is_digit(b),
{
    48 <= b && b <= 57
}

/// The first position at or after `pos` holding no whitespace.
fn skip_ws(s: &Vec<u8>, pos: usize) -> (p: usize)
    requires
        pos <= s@.len(),
    ensures
        p as int == skip_ws_spec(s@, pos as int),
        pos <= p <= s@.len(),
{
    let n = s.len();
    let mut cur = pos;
    while cur < n && ws_byte(s[cur])
        invariant
            n == s@.len(),
            pos <= cur <= n,
            skip_ws_spec(s@, pos as int) == skip_ws_spec(s@, cur as int),
        decreases n - cur,
    {
        cur += 1;
    }
    cur
}

/// The end of the identifier starting at `pos`.
fn ident_end_exec(s: &Vec<u8>, pos: usize) -> (e: usize)
    requires
        pos <= s@.len(),
    ensures
        e as int == ident_end(s@, pos as int),
        pos <= e <= s@.len(),
{
    let n = s.len();
    let mut cur = pos;
    while cur < n && ident_byte(s[cur])
        invariant
            n == s@.len(),
            pos <= cur <= n,
            ident_end(s@, pos as int) == ident_end(s@, cur as int),
        decreases n - cur,
    {
        cur += 1;
    }
    cur
}

/// The end of the digit run starting at `pos`; every byte before it in the
/// run is a digit.
fn digits_end_exec(s: &Vec<u8>, pos: usize) -> (e: usize)
    requires
        pos <= s@.len(),
    ensures
        e as int == digits_end(s@, pos as int),
        pos <= e <= s@.len(),
        forall|m: int| pos <= m < e ==> is_digit(s@[m]),
{
    let n = s.len();
    let mut cur = pos;
    while cur < n && digit_byte(s[cur])
        invariant
            n == s@.len(),
            pos <= cur <= n,
            digits_end(s@, pos as int) == digits_end(s@, cur as int),
            forall|m: int| pos <= m < cur ==> is_digit(s@[m]),
        decreases n - cur,
    {
        cur += 1;
    }
    cur
}

/// The bytes `s[a..b]` as a fresh identifier.
fn sub_vec(s: &Vec<u8>, a: usize, b: usize) -> (r: Vec<u8>)
    requires
        a <= b <= s@.len(),
    ensures
        r@ == s@.subrange(a as int, b as int),
{
    let mut r: Vec<u8> = Vec::new();
    let mut cur = a;
    while cur < b
        invariant
            a <= cur <= b <= s@.len(),
            r@ =~= s@.subrange(a as int, cur as int),
        decreases b - cur,
    {
        r.push(s[cur]);
        cur += 1;
        proof {
            assert(r@ =~= s@.subrange(a as int, cur as int));
        }
    }
    r
}

/// Ten to the power `n`.
pub open spec fn pow10(n: int) -> int
    decreases n,
{
    if n <= 0 {
        1
    } else {
        10 * pow10(n - 1)
    }
}

proof fn lemma_pow10_pos(n: int)
    ensures
        pow10(n) >= 1,
    decreases n,
{
    if n > 0 {
        lemma_pow10_pos(n - 1);
    }
}

proof fn lemma_pow10_mono(a: int, b: int)
    requires
        a <= b,
    ensures
        1 <= pow10(a) <= pow10(b),
    decreases b - a,
{
    lemma_pow10_pos(a);
    if a < b {
        lemma_pow10_mono(a, b - 1);
        lemma_pow10_pos(b - 1);
    }
}

proof fn lemma_digits_val_bound(s: Seq<u8>, a: int, b: int)
    requires
        a <= b,
        forall|m: int| a <= m < b ==> is_digit(s[m]),
    ensures
        0 <= digits_val(s, a, b) < pow10(b - a),
    decreases b - a,
{
    if a < b {
        lemma_digits_val_bound(s, a, b - 1);
    }
}

/// The value of the digit run `s[a..b]`, which fits `u64` because the run
/// holds at most 10 digits.
fn digits_value(s: &Vec<u8>, a: usize, b: usize) -> (val: u64)
    requires
        a <= b <= s@.len(),
        b - a <= 10,
        forall|m: int| a <= m < b ==> is_digit(s@[m]),
    ensures
        val as int == digits_val(s@, a as int, b as int),
{
    let mut val: u64 = 0;
    let mut cur = a;
    while cur < b
        invariant
            a <= cur <= b <= s@.len(),
            b - a <= 10,
            forall|m: int| a <= m < b ==> is_digit(s@[m]),
            val as int == digits_val(s@, a as int, cur as int),
        decreases b - cur,
    {
        proof {
            lemma_digits_val_bound(s@, a as int, cur as int);
            lemma_pow10_mono(cur - a, 9);
            assert(pow10(9) == 1000000000) by {
                reveal_with_fuel(pow10, 10);
            }
        }
        let d = s[cur] - 48;
        val = val * 10 + (d as u64);
        cur += 1;
    }
    val
}

/// One selector component at `pos`.
fn parse_comp_exec(s: &Vec<u8>, pos: usize) -> (r: Result<(Component, usize), ParseError>)
    requires
        pos <= s@.len(),
    ensures
        match r {
            Ok(ce) => {
                &&& parse_comp_spec(s@, pos as int) matches Ok(cs)
                &&& cs.0 == ce.0@
                &&& cs.1 == ce.1 as int
                &&& pos < ce.1 <= s@.len()
            },
            Err(pe) => parse_comp_spec(s@, pos as int) == Err::<(CompV, int), ParseError>(pe),
        },
{
    if pos >= s.len() {
        return Err(ParseError::UnexpectedEnd);
    }
    let b = s[pos];
    if b == 42 {
        Ok((Component::Universal, pos + 1))
    } else if b == 46 {
        let e = ident_end_exec(s, pos + 1);
        if e == pos + 1 {
            Err(ParseError::UnexpectedToken)
        } else {
            let name = sub_vec(s, pos + 1, e);
            Ok((Component::Class(name), e))
        }
    } else {
        let e = ident_end_exec(s, pos);
        if e == pos {
            Err(ParseError::UnexpectedToken)
        } else {
            let name = sub_vec(s, pos, e);
            Ok((Component::Tag(name), e))
        }
    }
}

/// The rest of a selector whose components so far are `parts`, starting at
/// `pos`; consumes the opening `{` of the rule's block.
fn parse_selector_rest(s: &Vec<u8>, pos: usize, first: Component) -> (r: Result<
    (Selector, usize),
    ParseError,
>)
    requires
        pos <= s@.len(),
    ensures
        ({
            let init = seq![PartV { comb: Combinator::Descendant, comp: first@ }];
            match r {
                Ok(se) => {
                    &&& parse_sel_rest_spec(s@, pos as int, init) matches Ok(pr)
                    &&& pr.0 == se.0@
                    &&& pr.1 == se.1 as int
                    &&& pos < se.1 <= s@.len()
                },
                Err(pe) => parse_sel_rest_spec(s@, pos as int, init) == Err::<
                    (Seq<PartV>, int),
                    ParseError,
                >(pe),
            }
        }),
{
    let ghost init = seq![PartV { comb: Combinator::Descendant, comp: first@ }];
    let mut parts: Vec<SelectorPart> = Vec::new();
    parts.push(SelectorPart { comb: Combinator::Descendant, comp: first });
    let mut cur = pos;
    proof {
        assert(parts@.map_values(|q: SelectorPart| q@) =~= init);
    }
    loop
        invariant
            pos <= cur <= s@.len(),
            init == seq![PartV { comb: Combinator::Descendant, comp: first@ }],
            parse_sel_rest_spec(s@, pos as int, init) == parse_sel_rest_spec(
                s@,
                cur as int,
                parts@.map_values(|q: SelectorPart| q@),
            ),
        decreases s@.len() - cur,
    {
        let ghost partsv = parts@.map_values(|q: SelectorPart| q@);
        let p = skip_ws(s, cur);
        if p >= s.len() {
            return Err(ParseError::UnexpectedEnd);
        }
        let b = s[p];
        if b == 123 {
            return Ok((Selector { parts }, p + 1));
        }
        if b == 62 {
            let p2 = skip_ws(s, p + 1);
            match parse_comp_exec(s, p2) {
                Err(e) => {
                    return Err(e);
                },
                Ok((c, p3)) => {
                    if p3 > cur {
                        parts.push(SelectorPart { comb: Combinator::Child, comp: c });
                        proof {
                            assert(parts@.map_values(|q: SelectorPart| q@) =~= partsv.push(
                                PartV { comb: Combinator::Child, comp: c@ },
                            ));
                        }
                        cur = p3;
                    } else {
                        return Err(ParseError::UnexpectedToken);
                    }
                },
            }
        } else if p > cur {
            match parse_comp_exec(s, p) {
                Err(e) => {
                    return Err(e);
                },
                Ok((c, p3)) => {
                    if p3 > cur {
                        parts.push(SelectorPart { comb: Combinator::Descendant, comp: c });
                        proof {
                            assert(parts@.map_values(|q: SelectorPart| q@) =~= partsv.push(
                                PartV { comb: Combinator::Descendant, comp: c@ },
                            ));
                        }
                        cur = p3;
                    } else {
                        return Err(ParseError::UnexpectedToken);
                    }
                },
            }
        } else {
            return Err(ParseError::UnexpectedToken);
        }
    }
}

/// The declarations of a block starting at `pos`; consumes the closing
/// `}`.
fn parse_decls(s: &Vec<u8>, pos: usize) -> (r: Result<(Vec<Declaration>, usize), ParseError>)
    requires
        pos <= s@.len(),
    ensures
        match r {
            Ok(de) => {
                &&& parse_decls_rest_spec(s@, pos as int, Seq::empty()) matches Ok(pr)
                &&& pr.0 == de.0@.map_values(|d: Declaration| d@)
                &&& pr.1 == de.1 as int
                &&& pos < de.1 <= s@.len()
            },
            Err(pe) => parse_decls_rest_spec(s@, pos as int, Seq::empty()) == Err::<
                (Seq<DeclV>, int),
                ParseError,
            >(pe),
        },
{
    let mut decls: Vec<Declaration> = Vec::new();
    let mut cur = pos;
    proof {
        assert(decls@.map_values(|d: Declaration| d@) =~= Seq::<DeclV>::empty());
    }
    loop
        invariant
            pos <= cur <= s@.len(),
            parse_decls_rest_spec(s@, pos as int, Seq::empty()) == parse_decls_rest_spec(
                s@,
                cur as int,
                decls@.map_values(|d: Declaration| d@),
            ),
        decreases s@.len() - cur,
    {
        let ghost declsv = decls@.map_values(|d: Declaration| d@);
        let p = skip_ws(s, cur);
        if p >= s.len() {
            return Err(ParseError::UnexpectedEnd);
        }
        if s[p] == 125 {
            return Ok((decls, p + 1));
        }
        let e = ident_end_exec(s, p);
        if e == p {
            return Err(ParseError::UnexpectedToken);
        }
        let name = sub_vec(s, p, e);
        let p2 = skip_ws(s, e);
        if !(p2 < s.len() && s[p2] == 58) {
            return Err(ParseError::ExpectedColon);
        }
        let p3 = skip_ws(s, p2 + 1);
        let de = digits_end_exec(s, p3);
        if de == p3 || de - p3 > 10 {
            return Err(ParseError::BadValue);
        }
        let value = digits_value(s, p3, de);
        let ue = ident_end_exec(s, de);
        let p4 = skip_ws(s, ue);
        if !(p4 < s.len() && s[p4] == 59) {
            return Err(ParseError::ExpectedSemicolon);
        }
        if p4 + 1 > cur {
            decls.push(Declaration { name, value });
            proof {
                assert(decls@.map_values(|d: Declaration| d@) =~= declsv.push(
                    DeclV { name: s@.subrange(p as int, e as int), value },
                ));
            }
            cur = p4 + 1;
        } else {
            return Err(ParseError::UnexpectedToken);
        }
    }
}

/// The whole stylesheet source as rules.
fn parse_rules(s: &Vec<u8>) -> (r: Result<Vec<Rule>, ParseError>)
    ensures
        match r {
            Ok(rules) => {
                &&& parse_spec(s@) matches Ok(rv)
                &&& rv == rules@.map_values(|q: Rule| q@)
            },
            Err(pe) => parse_spec(s@) == Err::<Seq<RuleV>, ParseError>(pe),
        },
{
    let mut rules: Vec<Rule> = Vec::new();
    let mut cur: usize = 0;
    proof {
        assert(rules@.map_values(|q: Rule| q@) =~= Seq::<RuleV>::empty());
    }
    loop
        invariant
            cur <= s@.len(),
            parse_rules_rest_spec(s@, 0, Seq::empty()) == parse_rules_rest_spec(
                s@,
                cur as int,
                rules@.map_values(|q: Rule| q@),
            ),
        decreases s@.len() - cur,
    {
        let ghost rulesv = rules@.map_values(|q: Rule| q@);
        let p = skip_ws(s, cur);
        if p >= s.len() {
            return Ok(rules);
        }
        match parse_comp_exec(s, p) {
            Err(e) => {
                return Err(e);
            },
            Ok((c0, p1)) => {
                match parse_selector_rest(s, p1, c0) {
                    Err(e) => {
                        return Err(e);
                    },
                    Ok((sel, p2)) => {
                        match parse_decls(s, p2) {
                            Err(e) => {
                                return Err(e);
                            },
                            Ok((decl_vec, p3)) => {
                                if p3 > cur {
                                    let ghost newv = RuleV {
                                        parts: sel@,
                                        decls: decl_vec@.map_values(|d: Declaration| d@),
                                    };
                                    rules.push(Rule { selector: sel, declarations: decl_vec });
                                    proof {
                                        assert(rules@.map_values(|q: Rule| q@) =~= rulesv.push(
                                            newv,
                                        ));
                                    }
                                    cur = p3;
                                } else {
                                    return Err(ParseError::UnexpectedToken);
                                }
                            },
                        }
                    },
                }
            },
        }
    }
}

impl Stylesheet {
    /// Parse a stylesheet source, surfacing the first malformation as a
    /// `ParseError` exactly as the grammar specification dictates.
    pub fn parse(src: &str) -> (r: Result<Stylesheet, ParseError>)
        ensures
            match r {
                Ok(sheet) => {
                    &&& parse_spec(src.spec_bytes()) matches Ok(rv)
                    &&& rv == sheet.rules@.map_values(|q: Rule| q@)
                },
                Err(pe) => parse_spec(src.spec_bytes()) == Err::<Seq<RuleV>, ParseError>(pe),
            },
    {
        let bytes = src.as_bytes_vec();
        match parse_rules(&bytes) {
            Ok(rules) => Ok(Stylesheet { rules }),
            Err(e) => Err(e),
        }
    }

    /// A stylesheet from a fixed source string: its parsed rules, or an
    /// empty stylesheet when the source is malformed.
    pub fn new_static(src: &str) -> (r: Stylesheet)
        ensures
            match parse_spec(src.spec_bytes()) {
                Ok(rv) => rv == r.rules@.map_values(|q: Rule| q@),
                Err(_) => r.rules@.len() == 0,
            },
    {
        match Self::parse(src) {
            Ok(sheet) => sheet,
            Err(_) => Stylesheet { rules: Vec::new() },
        }
    }
}

} // verus!

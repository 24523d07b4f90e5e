//! Recognizers of the lexical units: delimiters, quotes, `=`, attributes.
//!
//! The `_at` functions work on the characters of the input from a position and return the
//! position after what they consumed; each is held to the recognizer of the same name in
//! `grammar`. The functions without that suffix take the remaining input as a `&str` and
//! return the rest and what they recognized.
use vstd::prelude::*;
use crate::dom::{map_of, AttrMap};
use crate::grammar;
use crate::scan::{chars_of, is_alnum, lemma_run_concat, lemma_skip_skip, run, scan, Class};
use super::ParseError;

verus! {

/// `r` is the position that a recognizer's length gives from `i`, or nothing where it does
/// not match.
pub open spec fn at(r: Option<usize>, i: usize, o: Option<nat>) -> bool {
    match o {
        Some(n) => r matches Some(j) && j == i + n,
        None => r is None,
    }
}

/// A position after `i` and within the input, where there is one.
pub open spec fn ahead(r: Option<usize>, i: usize, len: nat) -> bool {
    r matches Some(j) ==> i < j <= len
}

pub open spec fn pairs_of(v: Seq<(String, String)>) -> Seq<(Seq<char>, Seq<char>)> {
    v.map_values(|p: (String, String)| (p.0@, p.1@))
}

fn lit_at(s: &Vec<char>, i: usize, w: &Vec<char>) -> (r: bool)
    requires
        i <= s.len(),
    ensures
        r == grammar::lit(s@.skip(i as int), w@),
{
    if w.len() > s.len() - i {
        return false;
    }
    let mut k: usize = 0;
    while k < w.len()
        invariant
            k <= w.len(),
            i + w.len() <= s.len(),
            forall|m: int| 0 <= m < k ==> s@[i + m] == w@[m],
        decreases w.len() - k,
    {
        if s[i + k] != w[k] {
            assert(s@.skip(i as int).take(w.len() as int)[k as int] != w@[k as int]);
            return false;
        }
        k = k + 1;
    }
    assert(s@.skip(i as int).take(w.len() as int) =~= w@);
    true
}

fn delim_at(s: &Vec<char>, i: usize, w: &Vec<char>) -> (r: Option<usize>)
    requires
        i <= s.len(),
        w.len() > 0,
    ensures
        at(r, i, grammar::delim(s@.skip(i as int), w@)),
        ahead(r, i, s@.len()),
{
    let j = scan(s, i, Class::Space);
    proof {
        lemma_skip_skip(s@, i as int, j - i);
    }
    if lit_at(s, j, w) {
        Some(j + w.len())
    } else {
        None
    }
}

pub fn chevron_open_at(s: &Vec<char>, i: usize) -> (r: Option<usize>)
    requires
        i <= s.len(),
    ensures
        at(r, i, grammar::chevron_open(s@.skip(i as int))),
        ahead(r, i, s@.len()),
{
    let w = vec!['<'];
    assert(w@ =~= seq!['<']);
    delim_at(s, i, &w)
}

pub fn chevron_close_at(s: &Vec<char>, i: usize) -> (r: Option<usize>)
    requires
        i <= s.len(),
    ensures
        at(r, i, grammar::chevron_close(s@.skip(i as int))),
        ahead(r, i, s@.len()),
{
    let w = vec!['>'];
    assert(w@ =~= seq!['>']);
    delim_at(s, i, &w)
}

pub fn chevron_tag_close_at(s: &Vec<char>, i: usize) -> (r: Option<usize>)
    requires
        i <= s.len(),
    ensures
        at(r, i, grammar::chevron_tag_close(s@.skip(i as int))),
        ahead(r, i, s@.len()),
{
    let w = vec!['/', '>'];
    assert(w@ =~= seq!['/', '>']);
    delim_at(s, i, &w)
}

pub fn chevron_tag_close_open_at(s: &Vec<char>, i: usize) -> (r: Option<usize>)
    requires
        i <= s.len(),
    ensures
        at(r, i, grammar::chevron_tag_close_open(s@.skip(i as int))),
        ahead(r, i, s@.len()),
{
    let w = vec!['<', '/'];
    assert(w@ =~= seq!['<', '/']);
    delim_at(s, i, &w)
}

pub fn chibang_at(s: &Vec<char>, i: usize) -> (r: Option<usize>)
    requires
        i <= s.len(),
    ensures
        at(r, i, grammar::chibang(s@.skip(i as int))),
        ahead(r, i, s@.len()),
{
    let w = vec!['<', '!'];
    assert(w@ =~= seq!['<', '!']);
    delim_at(s, i, &w)
}

pub fn comment_trait_at(s: &Vec<char>, i: usize) -> (r: Option<usize>)
    requires
        i <= s.len(),
    ensures
        at(r, i, grammar::comment_trait(s@.skip(i as int))),
        ahead(r, i, s@.len()),
{
    let j = scan(s, i, Class::Dash);
    if j - i >= 2 {
        if j - i <= 100 {
            Some(j)
        } else {
            Some(i + 100)
        }
    } else {
        None
    }
}

pub fn comment_op_at(s: &Vec<char>, i: usize) -> (r: Option<usize>)
    requires
        i <= s.len(),
    ensures
        at(r, i, grammar::comment_op(s@.skip(i as int))),
        ahead(r, i, s@.len()),
{
    match chibang_at(s, i) {
        Some(a) => {
            proof {
                lemma_skip_skip(s@, i as int, a - i);
            }
            comment_trait_at(s, a)
        },
        None => None,
    }
}

pub fn comment_cl_at(s: &Vec<char>, i: usize) -> (r: Option<usize>)
    requires
        i <= s.len(),
    ensures
        at(r, i, grammar::comment_cl(s@.skip(i as int))),
        ahead(r, i, s@.len()),
{
    match comment_trait_at(s, i) {
        Some(a) => {
            proof {
                lemma_skip_skip(s@, i as int, a - i);
            }
            chevron_close_at(s, a)
        },
        None => None,
    }
}

pub fn equal_at(s: &Vec<char>, i: usize) -> (r: Option<usize>)
    requires
        i <= s.len(),
    ensures
        at(r, i, grammar::equal(s@.skip(i as int))),
        ahead(r, i, s@.len()),
{
    let a = scan(s, i, Class::Space);
    if a < s.len() && s[a] == '=' {
        let b = scan(s, a + 1, Class::Space);
        proof {
            lemma_skip_skip(s@, i as int, a + 1 - i);
        }
        Some(b)
    } else {
        None
    }
}

pub fn quote_at(s: &Vec<char>, i: usize) -> (r: Option<usize>)
    requires
        i <= s.len(),
    ensures
        at(r, i, grammar::quote(s@.skip(i as int))),
        ahead(r, i, s@.len()),
{
    if i < s.len() && (s[i] == '"' || s[i] == '\'') {
        Some(i + 1)
    } else {
        None
    }
}

/// The bounds of the value between the quotes, and the position after the closing quote.
pub fn quoted_string_at(s: &Vec<char>, i: usize) -> (r: Option<(usize, usize, usize)>)
    requires
        i <= s.len(),
    ensures
        match grammar::quoted_string(s@.skip(i as int)) {
            Some((val, n)) => r matches Some((a, b, e)) && a <= b <= s.len() && s@.subrange(
                a as int,
                b as int,
            ) == val && e == i + n && i < e <= s.len(),
            None => r is None,
        },
{
    if i < s.len() && (s[i] == '"' || s[i] == '\'') {
        let q = s[i];
        let b = scan(s, i + 1, Class::NotChar(q));
        proof {
            lemma_skip_skip(s@, i as int, 1);
        }
        if b < s.len() {
            assert(s@.skip(i as int).subrange(1, (b - i) as int) =~= s@.subrange(
                i + 1,
                b as int,
            ));
            Some((i + 1, b, b + 1))
        } else {
            None
        }
    } else {
        None
    }
}

/// What an attribute recognizer's result says, over plain values and a length from `i`.
pub open spec fn attr_view(r: Option<(Option<(String, String)>, usize)>, i: usize) -> Option<
    (Option<(Seq<char>, Seq<char>)>, nat),
> {
    match r {
        Some((a, e)) => Some(
            (
                match a {
                    Some(p) => Some((p.0@, p.1@)),
                    None => None,
                },
                (e - i) as nat,
            ),
        ),
        None => None,
    }
}

fn string_of(src: &str, a: usize, b: usize) -> (r: String)
    requires
        a <= b <= src@.len(),
    ensures
        r@ == src@.subrange(a as int, b as int),
{
    String::from_str(src.substring_char(a, b))
}

pub fn attribute_at(src: &str, s: &Vec<char>, i: usize) -> (r: Option<
    (Option<(String, String)>, usize),
>)
    requires
        s@ == src@,
        i <= s.len(),
    ensures
        attr_view(r, i) == grammar::attribute(s@.skip(i as int)),
        r matches Some((_, e)) ==> i < e <= s.len(),
{
    let w = scan(s, i, Class::Space);
    if w == i {
        return None;
    }
    let nb = scan(s, w, Class::Alnum);
    proof {
        lemma_skip_skip(s@, i as int, w - i);
    }
    if nb == w {
        return None;
    }
    proof {
        lemma_skip_skip(s@, w as int, nb - w);
        assert(s@.skip(w as int).take(nb - w) =~= s@.subrange(w as int, nb as int));
    }
    let name = string_of(src, w, nb);
    match equal_at(s, nb) {
        None => {
            let yes = "yes";
            proof {
                reveal_strlit("yes");
                assert(yes@ =~= grammar::flag_value());
            }
            Some((Some((name, String::from_str(yes))), nb))
        },
        Some(e) => {
            proof {
                lemma_skip_skip(s@, nb as int, e - nb);
            }
            match quoted_string_at(s, e) {
                Some((a, b, q)) => Some((Some((name, string_of(src, a, b))), q)),
                None => {
                    let vb = scan(s, e, Class::Alnum);
                    if vb > e {
                        proof {
                            assert(s@.skip(e as int).take(vb - e) =~= s@.subrange(
                                e as int,
                                vb as int,
                            ));
                        }
                        Some((Some((name, string_of(src, e, vb))), vb))
                    } else {
                        let jb = scan(s, e, Class::Junk);
                        Some((None, jb))
                    }
                },
            }
        },
    }
}

/// The attributes from `i` on, and the position after the last.
pub fn attributes_at(src: &str, s: &Vec<char>, i: usize) -> (r: (Vec<(String, String)>, usize))
    requires
        s@ == src@,
        i <= s.len(),
    ensures
        pairs_of(r.0@) == grammar::attributes(s@.skip(i as int)).0,
        r.1 == i + grammar::attributes(s@.skip(i as int)).1,
        i <= r.1 <= s.len(),
{
    let mut out: Vec<(String, String)> = Vec::new();
    let mut j: usize = i;
    assert(pairs_of(out@) =~= seq![]);
    loop
        invariant
            s@ == src@,
            i <= j <= s.len(),
            grammar::attributes(s@.skip(i as int)).0 == pairs_of(out@) + grammar::attributes(
                s@.skip(j as int),
            ).0,
            grammar::attributes(s@.skip(i as int)).1 == (j - i) + grammar::attributes(
                s@.skip(j as int),
            ).1,
        ensures
            i <= j <= s.len(),
            pairs_of(out@) == grammar::attributes(s@.skip(i as int)).0,
            j == i + grammar::attributes(s@.skip(i as int)).1,
        decreases s.len() - j,
    {
        match attribute_at(src, s, j) {
            Some((a, e)) => {
                proof {
                    lemma_skip_skip(s@, j as int, e - j);
                }
                let ghost before = out@;
                match a {
                    Some(p) => {
                        out.push(p);
                        proof {
                            assert(pairs_of(out@) =~= pairs_of(before).push((p.0@, p.1@)));
                            assert(pairs_of(out@) + grammar::attributes(s@.skip(e as int)).0
                                =~= pairs_of(before) + (seq![(p.0@, p.1@)]
                                + grammar::attributes(s@.skip(e as int)).0));
                        }
                    },
                    None => {},
                }
                j = e;
            },
            None => {
                assert(grammar::attribute(s@.skip(j as int)) is None);
                assert(grammar::attributes(s@.skip(j as int)).1 == 0);
                assert(grammar::attributes(s@.skip(j as int)).0 == Seq::<(Seq<char>, Seq<char>)>::empty());
                assert(pairs_of(out@) + grammar::attributes(s@.skip(j as int)).0 =~= pairs_of(
                    out@,
                ));
                break;
            },
        }
    }
    (out, j)
}

/// The map of a sequence of attributes; a later one wins over an earlier one of the same name.
pub fn attributes_to_map(attributes: &Vec<(String, String)>) -> (r: AttrMap)
    ensures
        r@ == map_of(pairs_of(attributes@)),
{
    let mut attrs = AttrMap::new();
    let mut k: usize = 0;
    while k < attributes.len()
        invariant
            k <= attributes.len(),
            attrs@ == map_of(pairs_of(attributes@).take(k as int)),
        decreases attributes.len() - k,
    {
        let key = attributes[k].0.clone();
        let value = attributes[k].1.clone();
        attrs.insert(key, value);
        proof {
            assert(pairs_of(attributes@).take(k + 1).drop_last() =~= pairs_of(attributes@).take(
                k as int,
            ));
        }
        k = k + 1;
    }
    assert(pairs_of(attributes@).take(k as int) =~= pairs_of(attributes@));
    attrs
}

/// The rest of `input` from `j` and the part `a..b` of it.
fn cut<'a>(input: &'a str, j: usize, a: usize, b: usize) -> (r: (&'a str, &'a str))
    requires
        a <= b <= input@.len(),
        j <= input@.len(),
    ensures
        r.0@ == input@.skip(j as int),
        r.1@ == input@.subrange(a as int, b as int),
{
    let rest = input.substring_char(j, input.unicode_len());
    assert(input@.subrange(j as int, input@.len() as int) =~= input@.skip(j as int));
    (rest, input.substring_char(a, b))
}

fn delim_token<'a>(input: &'a str, w: &Vec<char>) -> (r: Result<(&'a str, &'a str), ParseError>)
    requires
        w.len() > 0,
    ensures
        match grammar::delim(input@, w@) {
            Some(n) => r matches Ok((rest, out)) && rest@ == input@.skip(n as int) && out@ == w@,
            None => r matches Err(ParseError::NoMatch),
        },
{
    let s = chars_of(input);
    assert(s@.skip(0) =~= s@);
    match delim_at(&s, 0, w) {
        Some(j) => {
            let (rest, out) = cut(input, j, j - w.len(), j);
            proof {
                let sp = crate::scan::run(s@, Class::Space) as int;
                assert(s@.skip(sp).take(w.len() as int) =~= s@.subrange(sp, j as int));
            }
            Ok((rest, out))
        },
        None => Err(ParseError::NoMatch),
    }
}

/// Space, then `<`.
pub fn chevron_open<'a>(input: &'a str) -> (r: Result<(&'a str, &'a str), ParseError>)
    ensures
        match grammar::chevron_open(input@) {
            Some(n) => r matches Ok((rest, out)) && rest@ == input@.skip(n as int) && out@ == seq!['<'],
            None => r matches Err(ParseError::NoMatch),
        },
{
    let w = vec!['<'];
    assert(w@ =~= seq!['<']);
    delim_token(input, &w)
}

/// Space, then `>`.
pub fn chevron_close<'a>(input: &'a str) -> (r: Result<(&'a str, &'a str), ParseError>)
    ensures
        match grammar::chevron_close(input@) {
            Some(n) => r matches Ok((rest, out)) && rest@ == input@.skip(n as int) && out@ == seq!['>'],
            None => r matches Err(ParseError::NoMatch),
        },
{
    let w = vec!['>'];
    assert(w@ =~= seq!['>']);
    delim_token(input, &w)
}

/// Space, then `/>`.
pub fn chevron_tag_close<'a>(input: &'a str) -> (r: Result<(&'a str, &'a str), ParseError>)
    ensures
        match grammar::chevron_tag_close(input@) {
            Some(n) => r matches Ok((rest, out)) && rest@ == input@.skip(n as int) && out@ == seq![
                '/',
                '>',
            ],
            None => r matches Err(ParseError::NoMatch),
        },
{
    let w = vec!['/', '>'];
    assert(w@ =~= seq!['/', '>']);
    delim_token(input, &w)
}

/// Space, then `</`.
pub fn chevron_tag_close_open<'a>(input: &'a str) -> (r: Result<(&'a str, &'a str), ParseError>)
    ensures
        match grammar::chevron_tag_close_open(input@) {
            Some(n) => r matches Ok((rest, out)) && rest@ == input@.skip(n as int) && out@ == seq![
                '<',
                '/',
            ],
            None => r matches Err(ParseError::NoMatch),
        },
{
    let w = vec!['<', '/'];
    assert(w@ =~= seq!['<', '/']);
    delim_token(input, &w)
}

/// Space, then `<!`.
pub fn chibang<'a>(input: &'a str) -> (r: Result<(&'a str, &'a str), ParseError>)
    ensures
        match grammar::chibang(input@) {
            Some(n) => r matches Ok((rest, out)) && rest@ == input@.skip(n as int) && out@ == seq![
                '<',
                '!',
            ],
            None => r matches Err(ParseError::NoMatch),
        },
{
    let w = vec!['<', '!'];
    assert(w@ =~= seq!['<', '!']);
    delim_token(input, &w)
}

/// The start of a comment, `<!` and its dashes; gives the dashes.
pub fn comment_op<'a>(input: &'a str) -> (r: Result<(&'a str, &'a str), ParseError>)
    ensures
        match grammar::comment_op(input@) {
            Some(n) => r matches Ok((rest, out)) && rest@ == input@.skip(n as int) && out@
                == input@.subrange(grammar::chibang(input@)->0 as int, n as int),
            None => r matches Err(ParseError::NoMatch),
        },
{
    let s = chars_of(input);
    assert(s@.skip(0) =~= s@);
    match chibang_at(&s, 0) {
        Some(a) => match comment_trait_at(&s, a) {
            Some(j) => Ok(cut(input, j, a, j)),
            None => Err(ParseError::NoMatch),
        },
        None => Err(ParseError::NoMatch),
    }
}

/// The end of a comment, its dashes and `>`; gives the dashes.
pub fn comment_cl<'a>(input: &'a str) -> (r: Result<(&'a str, &'a str), ParseError>)
    ensures
        match grammar::comment_cl(input@) {
            Some(n) => r matches Ok((rest, out)) && rest@ == input@.skip(n as int) && out@
                == input@.take(grammar::comment_trait(input@)->0 as int),
            None => r matches Err(ParseError::NoMatch),
        },
{
    let s = chars_of(input);
    assert(s@.skip(0) =~= s@);
    match comment_trait_at(&s, 0) {
        Some(a) => match chevron_close_at(&s, a) {
            Some(j) => {
                let r = cut(input, j, 0, a);
                assert(input@.subrange(0, a as int) =~= input@.take(a as int));
                Ok(r)
            },
            None => Err(ParseError::NoMatch),
        },
        None => Err(ParseError::NoMatch),
    }
}

/// `=` with optional space around it; gives the `=`.
pub fn equal<'a>(input: &'a str) -> (r: Result<(&'a str, &'a str), ParseError>)
    ensures
        match grammar::equal(input@) {
            Some(n) => r matches Ok((rest, out)) && rest@ == input@.skip(n as int) && out@ == seq!['='],
            None => r matches Err(ParseError::NoMatch),
        },
{
    let s = chars_of(input);
    assert(s@.skip(0) =~= s@);
    match equal_at(&s, 0) {
        Some(j) => {
            let a = scan(&s, 0, Class::Space);
            let r = cut(input, j, a, a + 1);
            assert(input@.subrange(a as int, a + 1) =~= seq!['=']);
            Ok(r)
        },
        None => Err(ParseError::NoMatch),
    }
}

/// A quote, `"` or `'`.
pub fn quote<'a>(input: &'a str) -> (r: Result<(&'a str, &'a str), ParseError>)
    ensures
        match grammar::quote(input@) {
            Some(n) => r matches Ok((rest, out)) && rest@ == input@.skip(n as int) && out@
                == input@.take(1),
            None => r matches Err(ParseError::NoMatch),
        },
{
    let s = chars_of(input);
    assert(s@.skip(0) =~= s@);
    match quote_at(&s, 0) {
        Some(j) => {
            let r = cut(input, j, 0, 1);
            assert(input@.subrange(0, 1) =~= input@.take(1));
            Ok(r)
        },
        None => Err(ParseError::NoMatch),
    }
}

/// A value between two equal quotes; gives the value.
pub fn parse_quoted_string<'a>(input: &'a str) -> (r: Result<(&'a str, &'a str), ParseError>)
    ensures
        match grammar::quoted_string(input@) {
            Some((val, n)) => r matches Ok((rest, out)) && rest@ == input@.skip(n as int) && out@
                == val,
            None => r matches Err(ParseError::NoMatch),
        },
{
    let s = chars_of(input);
    assert(s@.skip(0) =~= s@);
    match quoted_string_at(&s, 0) {
        Some((a, b, e)) => Ok(cut(input, e, a, b)),
        None => Err(ParseError::NoMatch),
    }
}

/// One attribute after space; gives its name and value. An attribute with `=` but no value
/// that the grammar knows is `MalformedAttribute`.
pub fn attribute<'a>(input: &'a str) -> (r: Result<(&'a str, (String, String)), ParseError>)
    ensures
        match grammar::attribute(input@) {
            Some((Some((k, v)), n)) => r matches Ok((rest, (name, value))) && rest@ == input@.skip(
                n as int,
            ) && name@ == k && value@ == v,
            Some((None, _)) => r matches Err(ParseError::MalformedAttribute),
            None => r matches Err(ParseError::NoMatch),
        },
{
    let s = chars_of(input);
    assert(s@.skip(0) =~= s@);
    match attribute_at(input, &s, 0) {
        Some((Some(p), j)) => {
            let (rest, _) = cut(input, j, 0, 0);
            Ok((rest, p))
        },
        Some((None, _)) => Err(ParseError::MalformedAttribute),
        None => Err(ParseError::NoMatch),
    }
}

/// The quote that writes `v`: `"`, unless `v` holds one.
pub open spec fn quote_for(v: Seq<char>) -> char {
    if v.contains('"') {
        '\''
    } else {
        '"'
    }
}

/// An attribute in its quoted form: ` name="value"`.
pub open spec fn quoted_attr(e: (Seq<char>, Seq<char>)) -> Seq<char> {
    seq![' '] + e.0 + seq!['=', quote_for(e.1)] + e.1 + seq![quote_for(e.1)]
}

/// Attributes in their quoted form, one after the other.
pub open spec fn quoted_form(es: Seq<(Seq<char>, Seq<char>)>) -> Seq<char>
    decreases es.len(),
{
    if es.len() == 0 {
        seq![]
    } else {
        quoted_attr(es[0]) + quoted_form(es.drop_first())
    }
}

/// An attribute as the parser gives it: a name of letters and digits, and a value that
/// lacks at least one of the two quotes.
pub open spec fn producible(e: (Seq<char>, Seq<char>)) -> bool {
    &&& e.0.len() > 0
    &&& forall|j: int| 0 <= j < e.0.len() ==> is_alnum(#[trigger] e.0[j])
    &&& !(e.1.contains('"') && e.1.contains('\''))
}

pub proof fn lemma_attribute_quoted(e: (Seq<char>, Seq<char>), x: Seq<char>)
    requires
        producible(e),
    ensures
        grammar::attributes(quoted_attr(e) + x) == (
            seq![e] + grammar::attributes(x).0,
            quoted_attr(e).len() + grammar::attributes(x).1,
        ),
{
    let k = e.0;
    let v = e.1;
    let q = quote_for(v);
    let a = quoted_attr(e);
    let t = a + x;
    let b2 = seq!['=', q] + v + seq![q] + x;
    let b1 = k + b2;
    assert(t =~= seq![' '] + b1);
    assert(b1[0] == k[0]);
    assert(is_alnum(k[0]));
    lemma_run_concat(seq![' '], b1, Class::Space);
    assert(t.skip(1) =~= b1);
    lemma_run_concat(k, b2, Class::Alnum);
    assert(b1.take(k.len() as int) =~= k);
    assert(b1.skip(k.len() as int) =~= b2);
    assert(b2[0] == '=');
    assert(run(b2, Class::Space) == 0);
    let x2 = seq![q] + v + seq![q] + x;
    assert(b2.skip(1) =~= x2);
    assert(x2[0] == q);
    assert(run(x2, Class::Space) == 0);
    assert(grammar::equal(b2) == Some(1nat));
    assert(b2.skip(1 as int) =~= x2);
    assert(x2.skip(1) =~= v + (seq![q] + x));
    assert forall|j: int| 0 <= j < v.len() implies #[trigger] crate::scan::in_class(
        v[j],
        Class::NotChar(q),
    ) by {
        if v[j] == q {
            assert(v.contains(q));
        }
    }
    lemma_run_concat(v, seq![q] + x, Class::NotChar(q));
    assert(x2.subrange(1, (1 + v.len()) as int) =~= v);
    assert(grammar::quoted_string(x2) == Some((v, v.len() + 2)));
    assert(grammar::attribute(t) == Some((Some(e), a.len())));
    assert(t.skip(a.len() as int) =~= x);
}

/// Attributes written in their quoted form and parsed again give the same attributes, in
/// the same order, and so the same map.
pub proof fn attributes_round_trip(es: Seq<(Seq<char>, Seq<char>)>)
    requires
        forall|i: int| 0 <= i < es.len() ==> producible(#[trigger] es[i]),
    ensures
        grammar::attributes(quoted_form(es)) == (es, quoted_form(es).len()),
        map_of(grammar::attributes(quoted_form(es)).0) == map_of(es),
    decreases es.len(),
{
    if es.len() == 0 {
        assert(grammar::attribute(quoted_form(es)) is None);
    } else {
        let rest = es.drop_first();
        assert forall|i: int| 0 <= i < rest.len() implies producible(#[trigger] rest[i]) by {
            assert(rest[i] == es[i + 1]);
        }
        attributes_round_trip(rest);
        let x = quoted_form(rest);
        assert(producible(es[0]));
        lemma_attribute_quoted(es[0], x);
        assert(seq![es[0]] + rest =~= es);
    }
}

} // verus!

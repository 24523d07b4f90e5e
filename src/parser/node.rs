//! Recognizers of nodes (text, comment, doctype, elements) and the tree builder.
use vstd::prelude::*;
use crate::dom::{comment, document, elem, root, text, tree_of, AttrMap, Kind, Node, Tree};
use crate::grammar;
use crate::grammar::{Body, Step};
use crate::scan::{chars_of, lemma_skip_skip, scan, trimmed, Class};
use super::raw_type::{
    at, attributes_at, attributes_to_map, chevron_close_at, chevron_open_at,
    chevron_tag_close_at, chevron_tag_close_open_at, chibang_at, comment_cl_at, comment_op_at,
    pairs_of,
};
use super::ParseError;

verus! {

pub open spec fn trees_of(v: Seq<Node>) -> Seq<Tree> {
    v.map_values(|n: Node| tree_of(n))
}

/// `r` is the node that a recognizer gives from `i`, with the position after it.
pub open spec fn node_at(r: Option<(Node, usize)>, i: usize, o: Option<(Tree, nat)>) -> bool {
    match o {
        Some((t, n)) => r matches Some((x, j)) && tree_of(x) == t && j == i + n,
        None => r is None,
    }
}

/// `r` is what the node alternation gives from `i`.
pub open spec fn step_at(r: Result<Option<(Node, usize)>, ParseError>, i: usize, o: Step) -> bool {
    match o {
        Step::Found(t, n) => r matches Ok(Some((x, j))) && tree_of(x) == t && j == i + n,
        Step::NoMatch => r matches Ok(None),
        Step::Unclosed => r matches Err(ParseError::UnclosedElement),
    }
}

/// `r` is what an element's body gives from `i`.
pub open spec fn body_at(r: Result<(Vec<Node>, usize), ParseError>, i: usize, o: Body) -> bool {
    match o {
        Body::Closed(ts, n) => r matches Ok((v, j)) && trees_of(v@) == ts && j == i + n,
        Body::Unclosed => r matches Err(ParseError::UnclosedElement),
    }
}

pub proof fn lemma_leaf(x: Node)
    requires
        x.children@.len() == 0,
    ensures
        tree_of(x) == (Tree { kind: x.node_type.kind(), children: seq![] }),
{
    assert(tree_of(x).children =~= Seq::<Tree>::empty());
}

/// Whether `s` holds, from `j`, the characters of `s[a..b]`.
fn lit_span_at(s: &Vec<char>, j: usize, a: usize, b: usize) -> (r: bool)
    requires
        j <= s.len(),
        a <= b <= s.len(),
    ensures
        r == grammar::lit(s@.skip(j as int), s@.subrange(a as int, b as int)),
{
    let n = b - a;
    if n > s.len() - j {
        return false;
    }
    let mut k: usize = 0;
    while k < n
        invariant
            k <= n,
            n == b - a,
            a <= b <= s.len(),
            j + n <= s.len(),
            forall|m: int| 0 <= m < k ==> #[trigger] s@[j + m] == s@[a + m],
        decreases n - k,
    {
        if s[j + k] != s[a + k] {
            assert(s@.skip(j as int).take(n as int)[k as int] != s@.subrange(
                a as int,
                b as int,
            )[k as int]);
            return false;
        }
        k = k + 1;
    }
    assert forall|m: int| 0 <= m < n implies s@.skip(j as int).take(n as int)[m] == s@.subrange(
        a as int,
        b as int,
    )[m] by {
        assert(s@[j + m] == s@[a + m]);
    }
    assert(s@.skip(j as int).take(n as int) =~= s@.subrange(a as int, b as int));
    true
}

/// The head of a tag from `i`: the bounds of its name, its attributes, the position after.
fn tag_head_at(src: &str, s: &Vec<char>, i: usize) -> (r: Option<
    (usize, usize, Vec<(String, String)>, usize),
>)
    requires
        s@ == src@,
        i <= s.len(),
    ensures
        match grammar::tag_head(s@.skip(i as int)) {
            Some((a, b, attrs, h)) => r matches Some((x, y, v, e)) && x == i + a && y == i + b
                && pairs_of(v@) == attrs && e == i + h && i < x < y <= e <= s.len(),
            None => r is None,
        },
{
    match chevron_open_at(s, i) {
        Some(a) => {
            let b = scan(s, a, Class::Alnum);
            proof {
                lemma_skip_skip(s@, i as int, a - i);
            }
            if b == a {
                None
            } else {
                let (v, e) = attributes_at(src, s, b);
                proof {
                    lemma_skip_skip(s@, i as int, b - i);
                }
                Some((a, b, v, e))
            }
        },
        None => None,
    }
}

/// Recognizes a self-closing element `<name attrs/>`.
pub fn p_tag_autocloseable_at(src: &str, s: &Vec<char>, i: usize) -> (r: Option<(Node, usize)>)
    requires
        s@ == src@,
        i <= s.len(),
    ensures
        node_at(r, i, grammar::tag_autocloseable(s@.skip(i as int))),
        r matches Some((_, j)) ==> i < j <= s.len(),
{
    match tag_head_at(src, s, i) {
        Some((a, b, v, h)) => {
            proof {
                lemma_skip_skip(s@, i as int, h - i);
            }
            match chevron_tag_close_at(s, h) {
                Some(e) => {
                    let name = String::from_str(src.substring_char(a, b));
                    let attrs = attributes_to_map(&v);
                    let x = elem(name, attrs, Vec::new());
                    proof {
                        lemma_leaf(x);
                        assert(s@.skip(i as int).subrange(a - i, b - i) =~= s@.subrange(
                            a as int,
                            b as int,
                        ));
                    }
                    Some((x, e))
                },
                None => None,
            }
        },
        None => None,
    }
}

/// Recognizes an opening tag `<name attrs>`: the name, the attributes and the position after.
pub fn p_tag_open_at(src: &str, s: &Vec<char>, i: usize) -> (r: Option<(usize, usize, AttrMap, usize)>)
    requires
        s@ == src@,
        i <= s.len(),
    ensures
        match grammar::tag_open(s@.skip(i as int)) {
            Some((name, attrs, h)) => r matches Some((a, b, m, e)) && a <= b <= s.len() && s@.subrange(
                a as int,
                b as int,
            ) == name && m@ == attrs && e == i + h && i < e <= s.len(),
            None => r is None,
        },
{
    match tag_head_at(src, s, i) {
        Some((a, b, v, h)) => {
            proof {
                lemma_skip_skip(s@, i as int, h - i);
            }
            match chevron_close_at(s, h) {
                Some(e) => {
                    let attrs = attributes_to_map(&v);
                    proof {
                        assert(s@.skip(i as int).subrange(a - i, b - i) =~= s@.subrange(
                            a as int,
                            b as int,
                        ));
                    }
                    Some((a, b, attrs, e))
                },
                None => None,
            }
        },
        None => None,
    }
}

/// Recognizes the closing tag of the element whose name is `s[a..b]`.
pub fn p_tag_close_at(s: &Vec<char>, i: usize, a: usize, b: usize) -> (r: Option<usize>)
    requires
        i <= s.len(),
        a <= b <= s.len(),
    ensures
        at(r, i, grammar::tag_close(s@.skip(i as int), s@.subrange(a as int, b as int))),
        r matches Some(j) ==> i < j <= s.len(),
{
    match chevron_tag_close_open_at(s, i) {
        Some(c) => {
            proof {
                lemma_skip_skip(s@, i as int, c - i);
            }
            if lit_span_at(s, c, a, b) {
                let d = c + (b - a);
                proof {
                    lemma_skip_skip(s@, i as int, d - i);
                }
                chevron_close_at(s, d)
            } else {
                None
            }
        },
        None => None,
    }
}

/// Recognizes `<!DOCTYPE attrs>`.
pub fn p_doctype_at(src: &str, s: &Vec<char>, i: usize) -> (r: Option<(Node, usize)>)
    requires
        s@ == src@,
        i <= s.len(),
    ensures
        node_at(r, i, grammar::doctype(s@.skip(i as int))),
        r matches Some((_, j)) ==> i < j <= s.len(),
{
    match chibang_at(s, i) {
        Some(a) => {
            let word = vec!['D', 'O', 'C', 'T', 'Y', 'P', 'E'];
            assert(word@ =~= grammar::doctype_word());
            proof {
                lemma_skip_skip(s@, i as int, a - i);
            }
            if !lit_word_at(s, a, &word) {
                return None;
            }
            let (v, m) = attributes_at(src, s, a + 7);
            proof {
                lemma_skip_skip(s@, i as int, a + 7 - i);
                lemma_skip_skip(s@, i as int, m - i);
            }
            match chevron_close_at(s, m) {
                Some(e) => {
                    let doctype = resolve_doctype(&v);
                    let x = document(doctype, Vec::new());
                    proof {
                        lemma_leaf(x);
                    }
                    Some((x, e))
                },
                None => None,
            }
        },
        None => None,
    }
}

fn lit_word_at(s: &Vec<char>, i: usize, w: &Vec<char>) -> (r: bool)
    requires
        i <= s.len(),
    ensures
        r == grammar::lit(s@.skip(i as int), w@),
        r ==> i + w.len() <= s.len(),
{
    if w.len() > s.len() - i {
        return false;
    }
    let mut k: usize = 0;
    while k < w.len()
        invariant
            k <= w.len(),
            i + w.len() <= s.len(),
            forall|m: int| 0 <= m < k ==> s@[i + m] == w@[m],
        decreases w.len() - k,
    {
        if s[i + k] != w[k] {
            assert(s@.skip(i as int).take(w.len() as int)[k as int] != w@[k as int]);
            return false;
        }
        k = k + 1;
    }
    assert(s@.skip(i as int).take(w.len() as int) =~= w@);
    true
}

/// The doctype that a declaration's attributes resolve to.
pub fn resolve_doctype(attrs: &Vec<(String, String)>) -> (r: String)
    ensures
        r@ == grammar::resolve_doctype(pairs_of(attrs@)),
{
    let html = "html";
    let yes = "yes";
    proof {
        reveal_strlit("html");
        reveal_strlit("yes");
    }
    let flag = String::from_str(yes);
    let mut d = String::from_str(html);
    let mut k: usize = 0;
    assert(pairs_of(attrs@).take(0) =~= seq![]);
    while k < attrs.len()
        invariant
            k <= attrs.len(),
            flag@ == grammar::flag_value(),
            d@ == grammar::resolve_doctype(pairs_of(attrs@).take(k as int)),
        decreases attrs.len() - k,
    {
        proof {
            assert(pairs_of(attrs@).take(k + 1).drop_last() =~= pairs_of(attrs@).take(k as int));
        }
        if !(attrs[k].1 == flag) {
            d = attrs[k].0.clone();
        }
        k = k + 1;
    }
    assert(pairs_of(attrs@).take(k as int) =~= pairs_of(attrs@));
    d
}

/// Recognizes a comment `<!-- content -->`.
pub fn p_comment_at(src: &str, s: &Vec<char>, i: usize) -> (r: Option<(Node, usize)>)
    requires
        s@ == src@,
        i <= s.len(),
    ensures
        node_at(r, i, grammar::comment(s@.skip(i as int))),
        r matches Some((_, j)) ==> i < j <= s.len(),
{
    match comment_op_at(s, i) {
        Some(a) => {
            let n = scan(s, a, Class::NotDash);
            proof {
                lemma_skip_skip(s@, i as int, a - i);
            }
            if n == a {
                return None;
            }
            proof {
                lemma_skip_skip(s@, i as int, n - i);
            }
            match comment_cl_at(s, n) {
                Some(e) => {
                    let x = comment(trimmed(src, s, a, n));
                    proof {
                        lemma_leaf(x);
                        assert(s@.skip(i as int).subrange(a - i, n - i) =~= s@.subrange(
                            a as int,
                            n as int,
                        ));
                    }
                    Some((x, e))
                },
                None => None,
            }
        },
        None => None,
    }
}

/// Recognizes text: the characters up to the next `<`, at least one, trimmed.
pub fn p_text_content_at(src: &str, s: &Vec<char>, i: usize) -> (r: Option<(Node, usize)>)
    requires
        s@ == src@,
        i <= s.len(),
    ensures
        node_at(r, i, grammar::text_content(s@.skip(i as int))),
        r matches Some((_, j)) ==> i < j <= s.len(),
{
    let n = scan(s, i, Class::NotLt);
    if n == i {
        return None;
    }
    let x = text(trimmed(src, s, i, n));
    proof {
        lemma_leaf(x);
        assert(s@.skip(i as int).take(n - i) =~= s@.subrange(i as int, n as int));
    }
    Some((x, n))
}

pub proof fn lemma_children(x: Node)
    ensures
        tree_of(x).children == trees_of(x.children@),
{
    assert(tree_of(x).children =~= trees_of(x.children@));
}

/// `b` with the nodes `acc` put in front and `k` more characters consumed.
pub open spec fn extend(acc: Seq<Tree>, k: nat, b: Body) -> Body {
    match b {
        Body::Closed(rest, m) => Body::Closed(acc + rest, k + m),
        Body::Unclosed => Body::Unclosed,
    }
}

/// `o` with the nodes `acc` put in front.
pub open spec fn extend_nodes(acc: Seq<Tree>, o: Option<Seq<Tree>>) -> Option<Seq<Tree>> {
    match o {
        Some(rest) => Some(acc + rest),
        None => None,
    }
}

/// One node at `i`, by the first recognizer that matches: doctype, comment, self-closing
/// element, text, element with a body.
pub fn p_node_at(src: &str, s: &Vec<char>, i: usize) -> (r: Result<Option<(Node, usize)>, ParseError>)
    requires
        s@ == src@,
        i <= s.len(),
    ensures
        step_at(r, i, grammar::node(s@.skip(i as int))),
        r matches Ok(Some((_, j))) ==> i < j <= s.len(),
    decreases s@.len() - i, 2int,
{
    match p_doctype_at(src, s, i) {
        Some(found) => {
            return Ok(Some(found));
        },
        None => {},
    }
    match p_comment_at(src, s, i) {
        Some(found) => {
            return Ok(Some(found));
        },
        None => {},
    }
    match p_tag_autocloseable_at(src, s, i) {
        Some(found) => {
            return Ok(Some(found));
        },
        None => {},
    }
    match p_text_content_at(src, s, i) {
        Some(found) => {
            return Ok(Some(found));
        },
        None => {},
    }
    p_element_at(src, s, i)
}

/// An element with a body: its opening tag, its children, its closing tag.
pub fn p_element_at(src: &str, s: &Vec<char>, i: usize) -> (r: Result<Option<(Node, usize)>, ParseError>)
    requires
        s@ == src@,
        i <= s.len(),
    ensures
        step_at(r, i, grammar::element(s@.skip(i as int))),
        r matches Ok(Some((_, j))) ==> i < j <= s.len(),
    decreases s@.len() - i, 1int,
{
    match p_tag_open_at(src, s, i) {
        Some((a, b, attrs, h)) => {
            proof {
                lemma_skip_skip(s@, i as int, h - i);
            }
            match p_body_at(src, s, h, a, b) {
                Ok((children, e)) => {
                    let name = String::from_str(src.substring_char(a, b));
                    let x = elem(name, attrs, children);
                    proof {
                        lemma_children(x);
                    }
                    Ok(Some((x, e)))
                },
                Err(err) => Err(err),
            }
        },
        None => Ok(None),
    }
}

/// The children of an element from `i` up to and with the closing tag of the name `s[a..b]`.
/// A character at which no node matches is skipped.
pub fn p_body_at(src: &str, s: &Vec<char>, i: usize, a: usize, b: usize) -> (r: Result<
    (Vec<Node>, usize),
    ParseError,
>)
    requires
        s@ == src@,
        i <= s.len(),
        a <= b <= s.len(),
    ensures
        body_at(r, i, grammar::body(s@.skip(i as int), s@.subrange(a as int, b as int))),
        r matches Ok((_, j)) ==> i < j <= s.len(),
    decreases s@.len() - i, 3int,
{
    let ghost name = s@.subrange(a as int, b as int);
    let mut out: Vec<Node> = Vec::new();
    let mut j: usize = i;
    assert(trees_of(out@) + Seq::<Tree>::empty() =~= Seq::<Tree>::empty());
    loop
        invariant
            s@ == src@,
            i <= j <= s.len(),
            a <= b <= s.len(),
            name == s@.subrange(a as int, b as int),
            grammar::body(s@.skip(i as int), name) == extend(
                trees_of(out@),
                (j - i) as nat,
                grammar::body(s@.skip(j as int), name),
            ),
        decreases s@.len() - j,
    {
        match p_tag_close_at(s, j, a, b) {
            Some(e) => {
                assert(trees_of(out@) + Seq::<Tree>::empty() =~= trees_of(out@));
                return Ok((out, e));
            },
            None => {},
        }
        if j == s.len() {
            return Err(ParseError::UnclosedElement);
        }
        match p_node_at(src, s, j) {
            Ok(Some((x, e))) => {
                proof {
                    lemma_skip_skip(s@, j as int, e - j);
                }
                let ghost before = trees_of(out@);
                out.push(x);
                proof {
                    assert(trees_of(out@) =~= before.push(tree_of(x)));
                    match grammar::body(s@.skip(e as int), name) {
                        Body::Closed(rest, m) => {
                            assert(before + (seq![tree_of(x)] + rest) =~= trees_of(out@) + rest);
                        },
                        Body::Unclosed => {},
                    }
                }
                j = e;
            },
            Ok(None) => {
                proof {
                    lemma_skip_skip(s@, j as int, 1);
                }
                j = j + 1;
            },
            Err(err) => {
                return Err(err);
            },
        }
    }
}

/// `r` is what parsing `text` gives: the document's tree, or `UnclosedElement`.
pub open spec fn parsed(text: Seq<char>, r: Result<Node, ParseError>) -> bool {
    match grammar::document(text) {
        Some(t) => r matches Ok(x) && tree_of(x) == t,
        None => r matches Err(ParseError::UnclosedElement),
    }
}

/// Parsing is deterministic: any two results of parsing the same text are the same tree, or
/// the same failure.
pub proof fn parse_is_deterministic(text: Seq<char>, a: Result<Node, ParseError>, b: Result<Node, ParseError>)
    requires
        parsed(text, a),
        parsed(text, b),
    ensures
        match (a, b) {
            (Ok(x), Ok(y)) => tree_of(x) == tree_of(y),
            (Err(e), Err(f)) => e == f,
            _ => false,
        },
{
}

/// Parses a whole document into a tree under a root node. Fails only where an element is
/// not closed before the end of the input.
pub fn parse(text_to_parse: String) -> (r: Result<Node, ParseError>)
    ensures
        parsed(text_to_parse@, r),
{
    let src = text_to_parse.as_str();
    let s = chars_of(src);
    let mut out: Vec<Node> = Vec::new();
    let mut j: usize = 0;
    assert(s@.skip(0) =~= s@);
    assert(trees_of(out@) =~= Seq::<Tree>::empty());
    assert(grammar::nodes(s@) =~~= extend_nodes(Seq::<Tree>::empty(), grammar::nodes(s@)));
    loop
        invariant
            s@ == src@,
            src@ == text_to_parse@,
            j <= s.len(),
            grammar::nodes(s@) == extend_nodes(trees_of(out@), grammar::nodes(s@.skip(j as int))),
        ensures
            j == s.len(),
            grammar::nodes(s@) == extend_nodes(trees_of(out@), grammar::nodes(s@.skip(j as int))),
        decreases s@.len() - j,
    {
        if j == s.len() {
            break;
        }
        match p_node_at(src, &s, j) {
            Ok(Some((x, e))) => {
                proof {
                    lemma_skip_skip(s@, j as int, e - j);
                }
                let ghost before = trees_of(out@);
                out.push(x);
                proof {
                    assert(trees_of(out@) =~= before.push(tree_of(x)));
                    match grammar::nodes(s@.skip(e as int)) {
                        Some(rest) => {
                            assert(before + (seq![tree_of(x)] + rest) =~= trees_of(out@) + rest);
                        },
                        None => {},
                    }
                }
                j = e;
            },
            Ok(None) => {
                proof {
                    lemma_skip_skip(s@, j as int, 1);
                }
                j = j + 1;
            },
            Err(err) => {
                return Err(err);
            },
        }
    }
    assert(s@.skip(j as int).len() == 0);
    assert(trees_of(out@) + Seq::<Tree>::empty() =~= trees_of(out@));
    let mut top = root();
    top.children = out;
    proof {
        lemma_children(top);
    }
    Ok(top)
}

/// `r` is the node that a recognizer gives on `input`, with the rest of `input`.
pub open spec fn node_on(r: Result<(&str, Node), ParseError>, input: Seq<char>, o: Option<(Tree, nat)>) -> bool {
    match o {
        Some((t, n)) => r matches Ok((rest, x)) && rest@ == input.skip(n as int) && tree_of(x) == t,
        None => r matches Err(ParseError::NoMatch),
    }
}

/// `r` is what the node alternation, or the element recognizer, gives on `input`.
pub open spec fn step_on(r: Result<(&str, Node), ParseError>, input: Seq<char>, o: Step) -> bool {
    match o {
        Step::Found(t, n) => r matches Ok((rest, x)) && rest@ == input.skip(n as int) && tree_of(x)
            == t,
        Step::NoMatch => r matches Err(ParseError::NoMatch),
        Step::Unclosed => r matches Err(ParseError::UnclosedElement),
    }
}

fn rest_of<'a>(input: &'a str, j: usize) -> (r: &'a str)
    requires
        j <= input@.len(),
    ensures
        r@ == input@.skip(j as int),
{
    let r = input.substring_char(j, input.unicode_len());
    assert(input@.subrange(j as int, input@.len() as int) =~= input@.skip(j as int));
    r
}

fn step_on_input<'a>(input: &'a str, s: &Vec<char>, r: Result<Option<(Node, usize)>, ParseError>) -> (out: Result<(&'a str, Node), ParseError>)
    requires
        s@ == input@,
        r matches Ok(Some((_, j))) ==> j <= s.len(),
    ensures
        match r {
            Ok(Some((x, j))) => out matches Ok((rest, y)) && rest@ == input@.skip(j as int) && y == x,
            Ok(None) => out matches Err(ParseError::NoMatch),
            Err(e) => out == Err::<(&str, Node), ParseError>(e),
        },
{
    match r {
        Ok(Some((x, j))) => Ok((rest_of(input, j), x)),
        Ok(None) => Err(ParseError::NoMatch),
        Err(e) => Err(e),
    }
}

/// Recognizes one node at the start of `input`.
pub fn p_node(input: &str) -> (r: Result<(&str, Node), ParseError>)
    ensures
        step_on(r, input@, grammar::node(input@)),
        r matches Ok((rest, _)) ==> rest@.len() < input@.len(),
{
    let s = chars_of(input);
    assert(s@.skip(0) =~= s@);
    step_on_input(input, &s, p_node_at(input, &s, 0))
}

/// Recognizes an element with its body and closing tag at the start of `input`.
pub fn parse_tag(input: &str) -> (r: Result<(&str, Node), ParseError>)
    ensures
        step_on(r, input@, grammar::element(input@)),
        r matches Ok((rest, _)) ==> rest@.len() < input@.len(),
{
    let s = chars_of(input);
    assert(s@.skip(0) =~= s@);
    step_on_input(input, &s, p_element_at(input, &s, 0))
}

/// Recognizes text up to the next `<`.
pub fn p_text_content(input: &str) -> (r: Result<(&str, Node), ParseError>)
    ensures
        node_on(r, input@, grammar::text_content(input@)),
        r matches Ok((rest, _)) ==> rest@.len() < input@.len(),
{
    let s = chars_of(input);
    assert(s@.skip(0) =~= s@);
    let found = p_text_content_at(input, &s, 0);
    match found {
        Some((x, j)) => Ok((rest_of(input, j), x)),
        None => Err(ParseError::NoMatch),
    }
}

/// Recognizes a self-closing element.
pub fn p_tag_autocloseable(input: &str) -> (r: Result<(&str, Node), ParseError>)
    ensures
        node_on(r, input@, grammar::tag_autocloseable(input@)),
        r matches Ok((rest, _)) ==> rest@.len() < input@.len(),
{
    let s = chars_of(input);
    assert(s@.skip(0) =~= s@);
    match p_tag_autocloseable_at(input, &s, 0) {
        Some((x, j)) => Ok((rest_of(input, j), x)),
        None => Err(ParseError::NoMatch),
    }
}

/// Recognizes a doctype declaration.
pub fn p_doctype(input: &str) -> (r: Result<(&str, Node), ParseError>)
    ensures
        node_on(r, input@, grammar::doctype(input@)),
        r matches Ok((rest, _)) ==> rest@.len() < input@.len(),
{
    let s = chars_of(input);
    assert(s@.skip(0) =~= s@);
    match p_doctype_at(input, &s, 0) {
        Some((x, j)) => Ok((rest_of(input, j), x)),
        None => Err(ParseError::NoMatch),
    }
}

/// Recognizes a comment.
pub fn p_comment(input: &str) -> (r: Result<(&str, Node), ParseError>)
    ensures
        node_on(r, input@, grammar::comment(input@)),
        r matches Ok((rest, _)) ==> rest@.len() < input@.len(),
{
    let s = chars_of(input);
    assert(s@.skip(0) =~= s@);
    match p_comment_at(input, &s, 0) {
        Some((x, j)) => Ok((rest_of(input, j), x)),
        None => Err(ParseError::NoMatch),
    }
}

/// Recognizes an opening tag; gives the element without children.
pub fn p_tag_open(input: &str) -> (r: Result<(&str, Node), ParseError>)
    ensures
        match grammar::tag_open(input@) {
            Some((name, attrs, n)) => r matches Ok((rest, x)) && rest@ == input@.skip(n as int)
                && tree_of(x) == (Tree { kind: Kind::Element(name, attrs), children: seq![] }),
            None => r matches Err(ParseError::NoMatch),
        },
        r matches Ok((rest, _)) ==> rest@.len() < input@.len(),
{
    let s = chars_of(input);
    assert(s@.skip(0) =~= s@);
    match p_tag_open_at(input, &s, 0) {
        Some((a, b, attrs, j)) => {
            let x = elem(String::from_str(input.substring_char(a, b)), attrs, Vec::new());
            proof {
                lemma_leaf(x);
            }
            Ok((rest_of(input, j), x))
        },
        None => Err(ParseError::NoMatch),
    }
}

/// Recognizes the closing tag `</name>`; gives the name.
pub fn p_tag_close<'a>(input: &'a str, name: &'a str) -> (r: Result<(&'a str, &'a str), ParseError>)
    ensures
        match grammar::tag_close(input@, name@) {
            Some(n) => r matches Ok((rest, out)) && rest@ == input@.skip(n as int) && out@ == name@,
            None => r matches Err(ParseError::NoMatch),
        },
{
    let s = chars_of(input);
    let w = chars_of(name);
    assert(s@.skip(0) =~= s@);
    match chevron_tag_close_open_at(&s, 0) {
        Some(c) => {
            if lit_word_at(&s, c, &w) {
                let d = c + w.len();
                proof {
                    lemma_skip_skip(s@, c as int, w.len() as int);
                }
                match chevron_close_at(&s, d) {
                    Some(j) => Ok((rest_of(input, j), name)),
                    None => Err(ParseError::NoMatch),
                }
            } else {
                Err(ParseError::NoMatch)
            }
        },
        None => Err(ParseError::NoMatch),
    }
}

} // verus!

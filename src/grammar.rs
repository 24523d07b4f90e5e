//! The grammar of the accepted markup, as recognizers over the remaining input.
//!
//! Each recognizer takes the input that is left and tells how many characters it consumes,
//! or that it does not match there; the unconsumed rest is `t.skip(n)`.
use vstd::prelude::*;
use crate::dom::{map_of, Kind, Tree};
use crate::scan::{run, trim, Class};

verus! {

pub open spec fn lit(t: Seq<char>, w: Seq<char>) -> bool {
    w.len() <= t.len() && t.take(w.len() as int) == w
}

/// Space, then the fixed delimiter `w`.
pub open spec fn delim(t: Seq<char>, w: Seq<char>) -> Option<nat> {
    let n = run(t, Class::Space);
    if lit(t.skip(n as int), w) {
        Some(n + w.len())
    } else {
        None
    }
}

/// `a` then `b`, consuming both.
pub open spec fn then(a: Option<nat>, b: Option<nat>) -> Option<nat> {
    match (a, b) {
        (Some(x), Some(y)) => Some(x + y),
        _ => None,
    }
}

pub open spec fn chevron_open(t: Seq<char>) -> Option<nat> {
    delim(t, seq!['<'])
}

pub open spec fn chevron_close(t: Seq<char>) -> Option<nat> {
    delim(t, seq!['>'])
}

pub open spec fn chevron_tag_close(t: Seq<char>) -> Option<nat> {
    delim(t, seq!['/', '>'])
}

pub open spec fn chevron_tag_close_open(t: Seq<char>) -> Option<nat> {
    delim(t, seq!['<', '/'])
}

pub open spec fn chibang(t: Seq<char>) -> Option<nat> {
    delim(t, seq!['<', '!'])
}

/// A run of two to a hundred dashes; a longer run gives its first hundred.
pub open spec fn comment_trait(t: Seq<char>) -> Option<nat> {
    let n = run(t, Class::Dash);
    if n >= 2 {
        Some(if n <= 100 { n } else { 100 })
    } else {
        None
    }
}

pub open spec fn comment_op(t: Seq<char>) -> Option<nat> {
    match chibang(t) {
        Some(a) => then(Some(a), comment_trait(t.skip(a as int))),
        None => None,
    }
}

pub open spec fn comment_cl(t: Seq<char>) -> Option<nat> {
    match comment_trait(t) {
        Some(a) => then(Some(a), chevron_close(t.skip(a as int))),
        None => None,
    }
}

/// `=` with optional space on both sides.
pub open spec fn equal(t: Seq<char>) -> Option<nat> {
    let a = run(t, Class::Space);
    if a < t.len() && t[a as int] == '=' {
        Some(a + 1 + run(t.skip((a + 1) as int), Class::Space))
    } else {
        None
    }
}

pub open spec fn is_quote(c: char) -> bool {
    c == '"' || c == '\''
}

pub open spec fn quote(t: Seq<char>) -> Option<nat> {
    if t.len() > 0 && is_quote(t[0]) {
        Some(1)
    } else {
        None
    }
}

/// A value between two equal quotes, which it does not contain; the value and the length.
pub open spec fn quoted_string(t: Seq<char>) -> Option<(Seq<char>, nat)> {
    if t.len() > 0 && is_quote(t[0]) {
        let n = run(t.skip(1), Class::NotChar(t[0]));
        if 1 + n < t.len() {
            Some((t.subrange(1, (1 + n) as int), n + 2))
        } else {
            None
        }
    } else {
        None
    }
}

/// The value that a flag attribute, written without `=`, is given.
pub open spec fn flag_value() -> Seq<char> {
    seq!['y', 'e', 's']
}

/// One attribute after at least one space: `name="value"`, `name='value'`, `name=value` or
/// `name` alone. Where `=` follows the name but no value form does, the attribute is dropped
/// (`None`) together with the characters up to the next space, `>`, `/` or quote.
pub open spec fn attribute(t: Seq<char>) -> Option<(Option<(Seq<char>, Seq<char>)>, nat)> {
    let w = run(t, Class::Space);
    let u = t.skip(w as int);
    let n = run(u, Class::Alnum);
    if w == 0 || n == 0 {
        None
    } else {
        let name = u.take(n as int);
        let v = u.skip(n as int);
        match equal(v) {
            None => Some((Some((name, flag_value())), w + n)),
            Some(e) => {
                let x = v.skip(e as int);
                match quoted_string(x) {
                    Some((val, q)) => Some((Some((name, val)), w + n + e + q)),
                    None => {
                        let b = run(x, Class::Alnum);
                        if b > 0 {
                            Some((Some((name, x.take(b as int))), w + n + e + b))
                        } else {
                            Some((None, w + n + e + run(x, Class::Junk)))
                        }
                    },
                }
            },
        }
    }
}

/// As many attributes as follow each other, in order, dropped ones left out.
pub open spec fn attributes(t: Seq<char>) -> (Seq<(Seq<char>, Seq<char>)>, nat)
    decreases t.len(),
{
    match attribute(t) {
        Some((a, n)) => if 0 < n <= t.len() {
            let (rest, m) = attributes(t.skip(n as int));
            (
                match a {
                    Some(p) => seq![p] + rest,
                    None => rest,
                },
                n + m,
            )
        } else {
            (seq![], 0)
        },
        None => (seq![], 0),
    }
}

/// The head of a tag: `<`, a name and its attributes. Gives the name's bounds, the
/// attributes and the length.
pub open spec fn tag_head(t: Seq<char>) -> Option<(int, int, Seq<(Seq<char>, Seq<char>)>, nat)> {
    match chevron_open(t) {
        Some(a) => {
            let n = run(t.skip(a as int), Class::Alnum);
            if n == 0 {
                None
            } else {
                let (attrs, m) = attributes(t.skip((a + n) as int));
                Some((a as int, (a + n) as int, attrs, a + n + m))
            }
        },
        None => None,
    }
}

/// `<name attrs/>`.
pub open spec fn tag_autocloseable(t: Seq<char>) -> Option<(Tree, nat)> {
    match tag_head(t) {
        Some((a, b, attrs, h)) => match chevron_tag_close(t.skip(h as int)) {
            Some(c) => Some(
                (
                    Tree {
                        kind: Kind::Element(t.subrange(a, b), map_of(attrs)),
                        children: seq![],
                    },
                    h + c,
                ),
            ),
            None => None,
        },
        None => None,
    }
}

/// `<name attrs>`: the name, the attribute map and the length.
pub open spec fn tag_open(t: Seq<char>) -> Option<(Seq<char>, Map<Seq<char>, Seq<char>>, nat)> {
    match tag_head(t) {
        Some((a, b, attrs, h)) => match chevron_close(t.skip(h as int)) {
            Some(c) => Some((t.subrange(a, b), map_of(attrs), h + c)),
            None => None,
        },
        None => None,
    }
}

/// `</name>`.
pub open spec fn tag_close(t: Seq<char>, name: Seq<char>) -> Option<nat> {
    match chevron_tag_close_open(t) {
        Some(a) => if lit(t.skip(a as int), name) {
            then(Some(a + name.len()), chevron_close(t.skip((a + name.len()) as int)))
        } else {
            None
        },
        None => None,
    }
}

/// The doctype that a declaration's attributes give: `html`, unless an attribute has a
/// value other than the flag value, in which case the last such attribute's name.
pub open spec fn resolve_doctype(attrs: Seq<(Seq<char>, Seq<char>)>) -> Seq<char>
    decreases attrs.len(),
{
    if attrs.len() == 0 {
        seq!['h', 't', 'm', 'l']
    } else if attrs.last().1 != flag_value() {
        attrs.last().0
    } else {
        resolve_doctype(attrs.drop_last())
    }
}

pub open spec fn doctype_word() -> Seq<char> {
    seq!['D', 'O', 'C', 'T', 'Y', 'P', 'E']
}

/// `<!DOCTYPE attrs>`.
pub open spec fn doctype(t: Seq<char>) -> Option<(Tree, nat)> {
    match chibang(t) {
        Some(a) => if lit(t.skip(a as int), doctype_word()) {
            let (attrs, m) = attributes(t.skip((a + 7) as int));
            match chevron_close(t.skip((a + 7 + m) as int)) {
                Some(c) => Some(
                    (
                        Tree { kind: Kind::Document(resolve_doctype(attrs)), children: seq![] },
                        a + 7 + m + c,
                    ),
                ),
                None => None,
            }
        } else {
            None
        },
        None => None,
    }
}

/// `<!--content-->`, with content that holds no dash.
pub open spec fn comment(t: Seq<char>) -> Option<(Tree, nat)> {
    match comment_op(t) {
        Some(a) => {
            let n = run(t.skip(a as int), Class::NotDash);
            if n == 0 {
                None
            } else {
                match comment_cl(t.skip((a + n) as int)) {
                    Some(c) => Some(
                        (
                            Tree {
                                kind: Kind::Comment(trim(t.subrange(a as int, (a + n) as int))),
                                children: seq![],
                            },
                            a + n + c,
                        ),
                    ),
                    None => None,
                }
            }
        },
        None => None,
    }
}

/// The characters up to the next `<`, at least one.
pub open spec fn text_content(t: Seq<char>) -> Option<(Tree, nat)> {
    let n = run(t, Class::NotLt);
    if n == 0 {
        None
    } else {
        Some((Tree { kind: Kind::Text(trim(t.take(n as int))), children: seq![] }, n))
    }
}

/// What a node recognizer found: a node and its length, nothing, or an element whose
/// closing tag never came.
pub enum Step {
    Found(Tree, nat),
    NoMatch,
    Unclosed,
}

/// What the body of an element gave: its children and the length up to and with the
/// closing tag, or the end of the input before that tag.
pub enum Body {
    Closed(Seq<Tree>, nat),
    Unclosed,
}

pub open spec fn found(r: Option<(Tree, nat)>) -> Step {
    match r {
        Some((x, n)) => Step::Found(x, n),
        None => Step::NoMatch,
    }
}

/// One node, by the first recognizer that matches: doctype, comment, self-closing
/// element, text, element with a body.
pub open spec fn node(t: Seq<char>) -> Step
    decreases t.len(), 2nat,
{
    if doctype(t) is Some {
        found(doctype(t))
    } else if comment(t) is Some {
        found(comment(t))
    } else if tag_autocloseable(t) is Some {
        found(tag_autocloseable(t))
    } else if text_content(t) is Some {
        found(text_content(t))
    } else {
        element(t)
    }
}

/// `<name attrs>`, the children, `</name>`.
pub open spec fn element(t: Seq<char>) -> Step
    decreases t.len(), 1nat,
{
    match tag_open(t) {
        Some((name, attrs, h)) => if 0 < h <= t.len() {
            match body(t.skip(h as int), name) {
                Body::Closed(children, m) => Step::Found(
                    Tree { kind: Kind::Element(name, attrs), children },
                    h + m,
                ),
                Body::Unclosed => Step::Unclosed,
            }
        } else {
            Step::NoMatch
        },
        None => Step::NoMatch,
    }
}

/// Nodes up to the closing tag of `name`. A character at which no node matches is skipped.
pub open spec fn body(t: Seq<char>, name: Seq<char>) -> Body
    decreases t.len(), 3nat,
{
    match tag_close(t, name) {
        Some(c) => Body::Closed(seq![], c),
        None => if t.len() == 0 {
            Body::Unclosed
        } else {
            match node(t) {
                Step::Found(x, n) => if 0 < n <= t.len() {
                    match body(t.skip(n as int), name) {
                        Body::Closed(rest, m) => Body::Closed(seq![x] + rest, n + m),
                        Body::Unclosed => Body::Unclosed,
                    }
                } else {
                    Body::Unclosed
                },
                Step::NoMatch => match body(t.skip(1), name) {
                    Body::Closed(rest, m) => Body::Closed(rest, 1 + m),
                    Body::Unclosed => Body::Unclosed,
                },
                Step::Unclosed => Body::Unclosed,
            }
        },
    }
}

/// The nodes of a whole document, or `None` where an element is never closed. A character
/// at which no node matches is skipped.
pub open spec fn nodes(t: Seq<char>) -> Option<Seq<Tree>>
    decreases t.len(),
{
    if t.len() == 0 {
        Some(seq![])
    } else {
        match node(t) {
            Step::Found(x, n) => if 0 < n <= t.len() {
                match nodes(t.skip(n as int)) {
                    Some(rest) => Some(seq![x] + rest),
                    None => None,
                }
            } else {
                None
            },
            Step::NoMatch => nodes(t.skip(1)),
            Step::Unclosed => None,
        }
    }
}

/// The tree of a whole document: its nodes under a root.
pub open spec fn document(t: Seq<char>) -> Option<Tree> {
    match nodes(t) {
        Some(children) => Some(Tree { kind: Kind::Root, children }),
        None => None,
    }
}

} // verus!

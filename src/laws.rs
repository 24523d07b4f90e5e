//! Properties that relate the recognizers to each other on whole families of inputs.
use vstd::prelude::*;
use crate::dom::{map_of, Kind, Tree};
use crate::grammar;
use crate::grammar::{Body, Step};
use crate::parser::raw_type::{lemma_attribute_quoted, producible, quoted_attr};
use crate::scan::{in_class, is_alnum, is_space, lemma_run_concat, lemma_run_le, run, trim, Class};

verus! {

pub open spec fn all_alnum(t: Seq<char>) -> bool {
    forall|j: int| 0 <= j < t.len() ==> is_alnum(#[trigger] t[j])
}

/// `<tag a="1">`.
pub open spec fn open_tag(tag: Seq<char>) -> Seq<char> {
    seq!['<'] + tag + quoted_attr((seq!['a'], seq!['1'])) + seq!['>']
}

/// `</tag>`.
pub open spec fn close_tag(tag: Seq<char>) -> Seq<char> {
    seq!['<', '/'] + tag + seq!['>']
}

proof fn lemma_open_tag(tag: Seq<char>, rest: Seq<char>)
    requires
        tag.len() > 0,
        all_alnum(tag),
    ensures
        grammar::tag_open(open_tag(tag) + rest) == Some(
            (tag, map_of(seq![(seq!['a'], seq!['1'])]), open_tag(tag).len()),
        ),
        match grammar::tag_head(open_tag(tag) + rest) {
            Some((_, _, _, h)) => grammar::chevron_tag_close((open_tag(tag) + rest).skip(h as int))
                is None,
            None => false,
        },
{
    let e = (seq!['a'], seq!['1']);
    let qa = quoted_attr(e);
    let t = open_tag(tag) + rest;
    let after = seq!['>'] + rest;
    assert(!seq!['1'].contains('"')) by {
        if seq!['1'].contains('"') {
            let j = choose|j: int| 0 <= j < 1 && seq!['1'][j] == '"';
            assert(seq!['1'][j] == '1');
        }
    }
    assert(producible(e));
    assert(run(t, Class::Space) == 0);
    assert(t.skip(0) =~= t);
    assert(t.take(1) =~= seq!['<']);
    assert(grammar::chevron_open(t) == Some(1nat));
    assert(t.skip(1) =~= tag + (qa + after));
    assert(qa[0] == ' ');
    lemma_run_concat(tag, qa + after, Class::Alnum);
    assert(t.skip(1 + tag.len() as int) =~= qa + after);
    lemma_attribute_quoted(e, after);
    assert(grammar::attribute(after) is None);
    assert(grammar::attributes(after) == (Seq::<(Seq<char>, Seq<char>)>::empty(), 0nat));
    assert(seq![e] + Seq::<(Seq<char>, Seq<char>)>::empty() =~= seq![e]);
    let h = 1 + tag.len() + qa.len() as int;
    assert(t.skip(h) =~= after);
    assert(t.subrange(1, 1 + tag.len() as int) =~= tag);
    assert(run(after, Class::Space) == 0);
    assert(after.skip(0) =~= after);
    assert(after.take(1) =~= seq!['>']);
    assert(grammar::chevron_close(after) == Some(1nat));
    assert(!grammar::lit(after, seq!['/', '>']));
}

/// Where the first character after leading space is not `<`, no markup starts there.
proof fn lemma_not_markup(t: Seq<char>)
    requires
        run(t, Class::Space) < t.len(),
        t[run(t, Class::Space) as int] != '<',
    ensures
        grammar::chevron_open(t) is None,
        grammar::chibang(t) is None,
        grammar::chevron_tag_close_open(t) is None,
        grammar::doctype(t) is None,
        grammar::comment(t) is None,
        grammar::tag_autocloseable(t) is None,
        forall|name: Seq<char>| #[trigger] grammar::tag_close(t, name) is None,
{
    let n = run(t, Class::Space) as int;
    assert(t.skip(n)[0] == t[n]);
    assert(!grammar::lit(t.skip(n), seq!['<'])) by {
        if grammar::lit(t.skip(n), seq!['<']) {
            assert(t.skip(n).take(1)[0] == seq!['<'][0]);
        }
    }
    assert(!grammar::lit(t.skip(n), seq!['<', '!'])) by {
        if grammar::lit(t.skip(n), seq!['<', '!']) {
            assert(t.skip(n).take(2)[0] == seq!['<', '!'][0]);
        }
    }
    assert(!grammar::lit(t.skip(n), seq!['<', '/'])) by {
        if grammar::lit(t.skip(n), seq!['<', '/']) {
            assert(t.skip(n).take(2)[0] == seq!['<', '/'][0]);
        }
    }
}

/// A run that holds a character other than space and no `<`.
pub open spec fn plain_text(b: Seq<char>) -> bool {
    &&& forall|j: int| 0 <= j < b.len() ==> #[trigger] b[j] != '<'
    &&& exists|j: int| 0 <= j < b.len() && !is_space(#[trigger] b[j])
}

proof fn lemma_plain_text(b: Seq<char>, c: Seq<char>)
    requires
        plain_text(b),
        c.len() == 0 || c[0] == '<',
    ensures
        run(b + c, Class::Space) < b.len(),
        (b + c)[run(b + c, Class::Space) as int] != '<',
        grammar::text_content(b + c) == Some(
            (Tree { kind: Kind::Text(trim(b)), children: seq![] }, b.len()),
        ),
        (b + c).skip(b.len() as int) == c,
{
    let t = b + c;
    let j0 = choose|j: int| 0 <= j < b.len() && !is_space(#[trigger] b[j]);
    lemma_run_le(t, Class::Space);
    if run(t, Class::Space) > j0 {
        assert(in_class(t[j0], Class::Space));
        assert(t[j0] == b[j0]);
    }
    assert(t[run(t, Class::Space) as int] == b[run(t, Class::Space) as int]);
    assert forall|j: int| 0 <= j < b.len() implies #[trigger] in_class(b[j], Class::NotLt) by {}
    lemma_run_concat(b, c, Class::NotLt);
    assert(t.take(b.len() as int) =~= b);
    assert(t.skip(b.len() as int) =~= c);
}

proof fn lemma_close_found(tag: Seq<char>)
    requires
        tag.len() > 0,
        all_alnum(tag),
    ensures
        grammar::tag_close(close_tag(tag), tag) == Some(close_tag(tag).len()),
{
    let c = close_tag(tag);
    assert(run(c, Class::Space) == 0);
    assert(c.skip(0) =~= c);
    assert(c.take(2) =~= seq!['<', '/']);
    assert(c.skip(2) =~= tag + seq!['>']);
    assert((tag + seq!['>']).take(tag.len() as int) =~= tag);
    let r = c.skip(2 + tag.len() as int);
    assert(r =~= seq!['>']);
    assert(run(r, Class::Space) == 0);
    assert(r.skip(0) =~= r);
    assert(r.take(1) =~= seq!['>']);
}

proof fn lemma_close_mismatch(tag: Seq<char>, other: Seq<char>)
    requires
        tag.len() > 0,
        all_alnum(tag),
        other.len() > 0,
        all_alnum(other),
        other != tag,
    ensures
        grammar::tag_close(close_tag(other), tag) is None,
{
    let c = close_tag(other);
    let u = other + seq!['>'];
    assert(run(c, Class::Space) == 0);
    assert(c.skip(0) =~= c);
    assert(c.take(2) =~= seq!['<', '/']);
    assert(c.skip(2) =~= u);
    if grammar::lit(u, tag) {
        if tag.len() > other.len() {
            assert(u.take(tag.len() as int)[other.len() as int] == '>');
            assert(is_alnum(tag[other.len() as int]));
        } else if tag.len() == other.len() {
            assert(u.take(tag.len() as int) =~= other);
        } else {
            let r = c.skip(2 + tag.len() as int);
            assert(r[0] == other[tag.len() as int]);
            assert(is_alnum(other[tag.len() as int]));
            assert(run(r, Class::Space) == 0);
            assert(r.skip(0) =~= r);
            assert(r.take(1)[0] != '>');
        }
    }
}

/// At a closing tag that does not close the element, no node matches; one character on,
/// the rest is text, after which the input ends.
proof fn lemma_stray_close(tag: Seq<char>, other: Seq<char>)
    requires
        other.len() > 0,
        all_alnum(other),
    ensures
        grammar::node(close_tag(other)) == Step::NoMatch,
        grammar::body(close_tag(other).skip(1), tag) == Body::Unclosed,
{
    let c = close_tag(other);
    assert(run(c, Class::Space) == 0);
    assert(c.skip(0) =~= c);
    assert(c.take(2) =~= seq!['<', '/']);
    assert(c.take(1) =~= seq!['<']);
    assert(c.skip(1)[0] == '/');
    assert(run(c.skip(1), Class::Alnum) == 0);
    assert(grammar::tag_head(c) is None);
    assert(run(c, Class::NotLt) == 0);
    let s1 = c.skip(1);
    assert(s1 =~= seq!['/'] + other + seq!['>']);
    assert(run(s1, Class::Space) == 0);
    assert(s1.skip(0) =~= s1);
    lemma_not_markup(s1);
    assert forall|j: int| 0 <= j < s1.len() implies #[trigger] in_class(s1[j], Class::NotLt) by {
        if 0 < j < s1.len() - 1 {
            assert(s1[j] == other[j - 1]);
            assert(is_alnum(other[j - 1]));
        }
    }
    assert(s1 + Seq::<char>::empty() =~= s1);
    lemma_run_concat(s1, Seq::<char>::empty(), Class::NotLt);
    let e = s1.skip(s1.len() as int);
    assert(e.len() == 0);
    assert(grammar::chevron_tag_close_open(e) is None);
    assert(grammar::body(e, tag) == Body::Unclosed);
    assert(grammar::tag_close(s1, tag) is None);
    assert(grammar::text_content(s1) is Some);
    assert(grammar::node(s1) == grammar::found(grammar::text_content(s1)));
}

/// At `<T a="1">` only the element recognizer can match.
#[verifier::rlimit(40)]
proof fn lemma_node_at_open(tag: Seq<char>, rest: Seq<char>)
    requires
        tag.len() > 0,
        all_alnum(tag),
    ensures
        grammar::node(open_tag(tag) + rest) == grammar::element(open_tag(tag) + rest),
        grammar::tag_open(open_tag(tag) + rest) == Some(
            (tag, map_of(seq![(seq!['a'], seq!['1'])]), open_tag(tag).len()),
        ),
        (open_tag(tag) + rest).skip(open_tag(tag).len() as int) == rest,
{
    lemma_open_tag(tag, rest);
    let t = open_tag(tag) + rest;
    assert(run(t, Class::Space) == 0);
    assert(t.skip(0) =~= t);
    assert(t.take(2)[1] == tag[0]);
    assert(is_alnum(tag[0]));
    assert(!grammar::lit(t, seq!['<', '!']));
    assert(grammar::chibang(t) is None);
    assert(grammar::doctype(t) is None);
    assert(grammar::comment_op(t) is None);
    assert(grammar::comment(t) is None);
    assert(grammar::tag_autocloseable(t) is None);
    assert(run(t, Class::NotLt) == 0);
    assert(grammar::text_content(t) is None);
    assert(t.skip(open_tag(tag).len() as int) =~= rest);
}

proof fn lemma_matching(tag: Seq<char>, body: Seq<char>)
    requires
        tag.len() > 0,
        all_alnum(tag),
        plain_text(body),
    ensures
        grammar::node(open_tag(tag) + (body + close_tag(tag))) == Step::Found(
            Tree {
                kind: Kind::Element(tag, map_of(seq![(seq!['a'], seq!['1'])])),
                children: seq![Tree { kind: Kind::Text(trim(body)), children: seq![] }],
            },
            (open_tag(tag) + (body + close_tag(tag))).len(),
        ),
{
    let cl = close_tag(tag);
    let txt = Tree { kind: Kind::Text(trim(body)), children: seq![] };
    lemma_node_at_open(tag, body + cl);
    lemma_plain_text(body, cl);
    lemma_not_markup(body + cl);
    assert(grammar::tag_close(body + cl, tag) is None);
    lemma_close_found(tag);
    assert(grammar::body(cl, tag) == Body::Closed(seq![], cl.len()));
    assert(seq![txt] + Seq::<Tree>::empty() =~= seq![txt]);
    assert(grammar::node(body + cl) == Step::Found(txt, body.len()));
    assert(grammar::body(body + cl, tag) == Body::Closed(seq![txt], body.len() + cl.len()));
}

proof fn lemma_mismatch(tag: Seq<char>, body: Seq<char>, other: Seq<char>)
    requires
        tag.len() > 0,
        all_alnum(tag),
        plain_text(body),
        other.len() > 0,
        all_alnum(other),
        other != tag,
    ensures
        grammar::node(open_tag(tag) + (body + close_tag(other))) == Step::Unclosed,
{
    let cu = close_tag(other);
    lemma_node_at_open(tag, body + cu);
    lemma_plain_text(body, cu);
    lemma_not_markup(body + cu);
    assert(grammar::tag_close(body + cu, tag) is None);
    lemma_close_mismatch(tag, other);
    lemma_stray_close(tag, other);
    assert(cu.len() > 0);
    assert(grammar::body(cu, tag) == Body::Unclosed);
    assert(grammar::node(body + cu) is Found);
    assert(grammar::body(body + cu, tag) == Body::Unclosed);
}

#[verifier::rlimit(40)]
proof fn lemma_missing(tag: Seq<char>, body: Seq<char>)
    requires
        tag.len() > 0,
        all_alnum(tag),
        plain_text(body),
    ensures
        grammar::node(open_tag(tag) + body) == Step::Unclosed,
{
    lemma_node_at_open(tag, body);
    lemma_plain_text(body, Seq::<char>::empty());
    assert(body + Seq::<char>::empty() =~= body);
    lemma_not_markup(body);
    assert(grammar::tag_close(body, tag) is None);
    let e = body.skip(body.len() as int);
    assert(e.len() == 0);
    assert(grammar::chevron_tag_close_open(e) is None);
    assert(grammar::body(e, tag) == Body::Unclosed);
    assert(grammar::node(body) == grammar::found(grammar::text_content(body)));
    assert(grammar::node(body) is Found);
    assert(grammar::body(body, tag) == Body::Unclosed);
}

/// Tag matching: `<T a="1">body</T>`, where `body` is text, parses to one element named `T`
/// with the attribute `a="1"` and one text child from `body`; with another closing tag, or
/// none, parsing fails because the element is not closed.
pub proof fn tag_matching(tag: Seq<char>, body: Seq<char>, other: Seq<char>)
    requires
        tag.len() > 0,
        all_alnum(tag),
        plain_text(body),
        other.len() > 0,
        all_alnum(other),
        other != tag,
    ensures
        grammar::document(open_tag(tag) + body + close_tag(tag)) == Some(
            Tree {
                kind: Kind::Root,
                children: seq![
                    Tree {
                        kind: Kind::Element(tag, map_of(seq![(seq!['a'], seq!['1'])])),
                        children: seq![Tree { kind: Kind::Text(trim(body)), children: seq![] }],
                    },
                ],
            },
        ),
        grammar::document(open_tag(tag) + body + close_tag(other)) is None,
        grammar::document(open_tag(tag) + body) is None,
{
    let o = open_tag(tag);
    let good = o + body + close_tag(tag);
    assert(good =~= o + (body + close_tag(tag)));
    lemma_matching(tag, body);
    let el = Tree {
        kind: Kind::Element(tag, map_of(seq![(seq!['a'], seq!['1'])])),
        children: seq![Tree { kind: Kind::Text(trim(body)), children: seq![] }],
    };
    assert(good.skip(good.len() as int).len() == 0);
    assert(grammar::nodes(good.skip(good.len() as int)) == Some(Seq::<Tree>::empty()));
    assert(seq![el] + Seq::<Tree>::empty() =~= seq![el]);
    assert(o + body + close_tag(other) =~= o + (body + close_tag(other)));
    lemma_mismatch(tag, body, other);
    lemma_missing(tag, body);
}

} // verus!

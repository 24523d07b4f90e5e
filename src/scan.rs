//! Character classes, maximal runs and trimming over sequences of characters.
use vstd::prelude::*;
use vstd::std_specs::iter::IteratorSpec;

verus! {

/// Space that the markup tolerates before a delimiter or around `=`.
pub open spec fn is_space(c: char) -> bool {
    c == ' ' || c == '\t' || c == '\n' || c == '\r'
}

/// ASCII letters and digits: the characters of tag names, attribute names and bare values.
pub open spec fn is_alnum(c: char) -> bool {
    ('a' <= c && c <= 'z') || ('A' <= c && c <= 'Z') || ('0' <= c && c <= '9')
}

/// The Unicode `White_Space` property, which is what `char::is_whitespace` tests.
pub open spec fn is_white(c: char) -> bool {
    ('\t' <= c && c <= '\r') || c == ' ' || c == '\u{85}' || c == '\u{A0}' || c == '\u{1680}'
        || ('\u{2000}' <= c && c <= '\u{200A}') || c == '\u{2028}' || c == '\u{2029}'
        || c == '\u{202F}' || c == '\u{205F}' || c == '\u{3000}'
}

/// A class of characters over which a maximal run is taken.
#[derive(Clone, Copy, Debug, PartialEq, Eq)]
pub enum Class {
    Space,
    Alnum,
    Dash,
    NotDash,
    NotLt,
    NotChar(char),
    /// What a dropped attribute value extends over.
    Junk,
}

pub open spec fn in_class(c: char, k: Class) -> bool {
    match k {
        Class::Space => is_space(c),
        Class::Alnum => is_alnum(c),
        Class::Dash => c == '-',
        Class::NotDash => c != '-',
        Class::NotLt => c != '<',
        Class::NotChar(q) => c != q,
        Class::Junk => !is_space(c) && c != '>' && c != '/' && c != '"' && c != '\'',
    }
}

/// Length of the longest prefix of `t` whose characters all lie in `k`.
pub open spec fn run(t: Seq<char>, k: Class) -> nat
    decreases t.len(),
{
    if t.len() > 0 && in_class(t[0], k) {
        1 + run(t.drop_first(), k)
    } else {
        0
    }
}

pub open spec fn trim_start(t: Seq<char>) -> Seq<char>
    decreases t.len(),
{
    if t.len() > 0 && is_white(t[0]) {
        trim_start(t.drop_first())
    } else {
        t
    }
}

pub open spec fn trim_end(t: Seq<char>) -> Seq<char>
    decreases t.len(),
{
    if t.len() > 0 && is_white(t.last()) {
        trim_end(t.drop_last())
    } else {
        t
    }
}

/// `t` without its leading and trailing white space, as `str::trim` gives it.
pub open spec fn trim(t: Seq<char>) -> Seq<char> {
    trim_end(trim_start(t))
}

pub fn space(c: char) -> (r: bool)
    ensures
        r == is_space(c),
{
    c == ' ' || c == '\t' || c == '\n' || c == '\r'
}

pub fn alnum(c: char) -> (r: bool)
    ensures
        r == is_alnum(c),
{
    ('a' <= c && c <= 'z') || ('A' <= c && c <= 'Z') || ('0' <= c && c <= '9')
}

pub fn white(c: char) -> (r: bool)
    ensures
        r == is_white(c),
{
    ('\t' <= c && c <= '\r') || c == ' ' || c == '\u{85}' || c == '\u{A0}' || c == '\u{1680}'
        || ('\u{2000}' <= c && c <= '\u{200A}') || c == '\u{2028}' || c == '\u{2029}'
        || c == '\u{202F}' || c == '\u{205F}' || c == '\u{3000}'
}

pub fn class_has(c: char, k: Class) -> (r: bool)
    ensures
        r == in_class(c, k),
{
    match k {
        Class::Space => space(c),
        Class::Alnum => alnum(c),
        Class::Dash => c == '-',
        Class::NotDash => c != '-',
        Class::NotLt => c != '<',
        Class::NotChar(q) => c != q,
        Class::Junk => !space(c) && c != '>' && c != '/' && c != '"' && c != '\'',
    }
}

pub proof fn lemma_skip_step(s: Seq<char>, i: int)
    requires
        0 <= i < s.len(),
    ensures
        s.skip(i).drop_first() == s.skip(i + 1),
        s.skip(i)[0] == s[i],
{
    assert(s.skip(i).drop_first() =~= s.skip(i + 1));
}

pub proof fn lemma_run_le(t: Seq<char>, k: Class)
    ensures
        run(t, k) <= t.len(),
        forall|j: int| 0 <= j < run(t, k) ==> #[trigger] in_class(t[j], k),
        run(t, k) < t.len() ==> !in_class(t[run(t, k) as int], k),
    decreases t.len(),
{
    if t.len() > 0 && in_class(t[0], k) {
        lemma_run_le(t.drop_first(), k);
        assert forall|j: int| 0 <= j < run(t, k) implies #[trigger] in_class(t[j], k) by {
            if j > 0 {
                assert(t[j] == t.drop_first()[j - 1]);
            }
        }
    }
}

/// A run over `a + b` is `a` when `a` lies in the class and `b` does not start in it.
pub proof fn lemma_run_concat(a: Seq<char>, b: Seq<char>, k: Class)
    requires
        forall|j: int| 0 <= j < a.len() ==> #[trigger] in_class(a[j], k),
        b.len() == 0 || !in_class(b[0], k),
    ensures
        run(a + b, k) == a.len(),
    decreases a.len(),
{
    if a.len() == 0 {
        assert(a + b =~= b);
    } else {
        assert((a + b).drop_first() =~= a.drop_first() + b);
        assert forall|j: int| 0 <= j < a.drop_first().len() implies #[trigger] in_class(
            a.drop_first()[j],
            k,
        ) by {
            assert(a.drop_first()[j] == a[j + 1]);
        }
        lemma_run_concat(a.drop_first(), b, k);
    }
}

/// End of the maximal run of `k` that starts at `i`.
pub fn scan(s: &Vec<char>, i: usize, k: Class) -> (j: usize)
    requires
        i <= s.len(),
    ensures
        i <= j <= s.len(),
        j - i == run(s@.skip(i as int), k),
{
    let mut j: usize = i;
    while j < s.len() && class_has(s[j], k)
        invariant
            i <= j <= s.len(),
            run(s@.skip(i as int), k) == (j - i) + run(s@.skip(j as int), k),
        decreases s.len() - j,
    {
        proof {
            lemma_skip_step(s@, j as int);
        }
        j = j + 1;
    }
    proof {
        if j < s.len() {
            assert(s@.skip(j as int)[0] == s@[j as int]);
        }
    }
    j
}

/// `s[a..b]` trimmed of white space, as a `String`.
pub fn trimmed(src: &str, s: &Vec<char>, a: usize, b: usize) -> (r: String)
    requires
        s@ == src@,
        a <= b <= s.len(),
    ensures
        r@ == trim(s@.subrange(a as int, b as int)),
{
    let mut x: usize = a;
    while x < b && white(s[x])
        invariant
            a <= x <= b <= s.len(),
            trim_start(s@.subrange(a as int, b as int)) == trim_start(s@.subrange(x as int, b as int)),
        decreases b - x,
    {
        assert(s@.subrange(x as int, b as int).drop_first() =~= s@.subrange(x + 1, b as int));
        x = x + 1;
    }
    assert(trim_start(s@.subrange(x as int, b as int)) == s@.subrange(x as int, b as int));
    let mut y: usize = b;
    while y > x && white(s[y - 1])
        invariant
            a <= x <= y <= b <= s.len(),
            trim(s@.subrange(a as int, b as int)) == trim_end(s@.subrange(x as int, y as int)),
        decreases y - x,
    {
        assert(s@.subrange(x as int, y as int).drop_last() =~= s@.subrange(x as int, y - 1));
        y = y - 1;
    }
    assert(trim_end(s@.subrange(x as int, y as int)) == s@.subrange(x as int, y as int));
    let part = src.substring_char(x, y);
    String::from_str(part)
}

pub proof fn lemma_skip_skip(s: Seq<char>, i: int, n: int)
    requires
        0 <= i,
        0 <= n,
        i + n <= s.len(),
    ensures
        s.skip(i).skip(n) == s.skip(i + n),
{
    assert(s.skip(i).skip(n) =~= s.skip(i + n));
}

/// The characters of `src`, in order.
pub fn chars_of(src: &str) -> (v: Vec<char>)
    ensures
        v@ == src@,
{
    broadcast use vstd::string::axiom_spec_iter, vstd::string::next_postcondition;

    let mut it = src.chars();
    let mut v: Vec<char> = Vec::new();
    loop
        invariant
            it.obeys_prophetic_iter_laws(),
            v@ + it.remaining() == src@,
            v@.len() <= src@.len(),
        ensures
            v@ == src@,
        decreases src@.len() - v@.len(),
    {
        let ghost before = it.remaining();
        let ghost seen = v@;
        match it.next() {
            Some(c) => {
                v.push(c);
                proof {
                    assert(before.len() > 0);
                    assert(v@ + it.remaining() =~= seen + before);
                }
            },
            None => {
                proof {
                    assert(before.len() == 0);
                    assert(v@ =~= src@);
                }
                break;
            },
        }
    }
    v
}

} // verus!

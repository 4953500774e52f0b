//! Glob-style patterns over task names.
//!
//! In a pattern every `*` is a wildcard and every other character stands for
//! itself.  A wildcard matches any run of characters, the empty one included,
//! that stays inside one segment of the name: it never matches a `/`.  A
//! pattern matches a name when the whole name is accounted for.  The text that
//! each wildcard matched is a capture; where several choices of captures
//! exist, the one whose earlier captures are shortest is taken.

use vstd::prelude::*;
use vstd::string::StringExecFns;
use crate::text::{chars_of, push_char, text_of, texts};

verus! {

/// The wildcard character of a pattern.
pub open spec fn wildcard() -> char {
    '*'
}

/// The character that separates the segments of a name.
pub open spec fn separator() -> char {
    '/'
}

/// The number of wildcards in a pattern.
pub open spec fn wildcards(p: Seq<char>) -> nat
    decreases p.len(),
{
    if p.len() == 0 {
        0
    } else if p[0] == wildcard() {
        1 + wildcards(p.drop_first())
    } else {
        wildcards(p.drop_first())
    }
}

/// The text that a pattern becomes when its wildcards are replaced, in order,
/// by the given captures.
pub open spec fn fill(p: Seq<char>, caps: Seq<Seq<char>>) -> Seq<char>
    decreases p.len(),
{
    if p.len() == 0 {
        Seq::empty()
    } else if p[0] == wildcard() {
        if caps.len() == 0 {
            fill(p.drop_first(), caps)
        } else {
            caps[0] + fill(p.drop_first(), caps.drop_first())
        }
    } else {
        seq![p[0]] + fill(p.drop_first(), caps)
    }
}

/// A text that lies inside one segment: it holds no separator.
pub open spec fn in_segment(s: Seq<char>) -> bool {
    forall|i: int| 0 <= i < s.len() ==> s[i] != separator()
}

/// The pattern matches the name with exactly these captures.
pub open spec fn is_match_with(p: Seq<char>, name: Seq<char>, caps: Seq<Seq<char>>) -> bool {
    &&& caps.len() == wildcards(p)
    &&& forall|i: int| 0 <= i < caps.len() ==> in_segment(#[trigger] caps[i])
    &&& fill(p, caps) == name
}

/// The pattern matches the whole name.
pub open spec fn is_match(p: Seq<char>, name: Seq<char>) -> bool {
    exists|caps: Seq<Seq<char>>| is_match_with(p, name, caps)
}

/// The captures of the first match in which the leading wildcard takes at
/// least `k` characters, trying shorter captures before longer ones.
pub open spec fn search(p: Seq<char>, name: Seq<char>, k: nat) -> Option<Seq<Seq<char>>>
    decreases p.len(), name.len() + 1 - k,
{
    if p.len() == 0 {
        if name.len() == 0 {
            Some(Seq::empty())
        } else {
            None
        }
    } else if p[0] != wildcard() {
        if name.len() > 0 && name[0] == p[0] {
            search(p.drop_first(), name.drop_first(), 0)
        } else {
            None
        }
    } else if k > name.len() || !in_segment(name.take(k as int)) {
        None
    } else {
        match search(p.drop_first(), name.skip(k as int), 0) {
            Some(rest) => Some(seq![name.take(k as int)] + rest),
            None => search(p, name, k + 1),
        }
    }
}

/// The captures with which a pattern matches a name, if it matches.
pub open spec fn captures(p: Seq<char>, name: Seq<char>) -> Option<Seq<Seq<char>>> {
    search(p, name, 0)
}

/// What `search` finds is a match.
pub proof fn lemma_search_sound(p: Seq<char>, name: Seq<char>, k: nat)
    ensures
        search(p, name, k) matches Some(caps) ==> is_match_with(p, name, caps),
    decreases p.len(), name.len() + 1 - k,
{
    if p.len() == 0 {
        if name.len() == 0 {
            assert(fill(p, Seq::<Seq<char>>::empty()) =~= name);
        }
    } else if p[0] != wildcard() {
        if name.len() > 0 && name[0] == p[0] {
            lemma_search_sound(p.drop_first(), name.drop_first(), 0);
            if let Some(caps) = search(p.drop_first(), name.drop_first(), 0) {
                assert(seq![p[0]] + name.drop_first() =~= name);
            }
        }
    } else if k > name.len() || !in_segment(name.take(k as int)) {
    } else {
        lemma_search_sound(p.drop_first(), name.skip(k as int), 0);
        match search(p.drop_first(), name.skip(k as int), 0) {
            Some(rest) => {
                let caps = seq![name.take(k as int)] + rest;
                assert(caps.drop_first() =~= rest);
                assert(caps[0] == name.take(k as int));
                assert(name.take(k as int) + name.skip(k as int) =~= name);
                assert forall|i: int| 0 <= i < caps.len() implies in_segment(
                    #[trigger] caps[i],
                ) by {
                    if i > 0 {
                        assert(caps[i] == rest[i - 1]);
                    }
                }
            },
            None => {
                lemma_search_sound(p, name, k + 1);
            },
        }
    }
}

/// Where the pattern starts with a wildcard and some match gives that
/// wildcard at least `k` characters, `search` from `k` finds a match.
proof fn lemma_search_reaches(p: Seq<char>, name: Seq<char>, caps: Seq<Seq<char>>, k: nat)
    requires
        p.len() > 0,
        p[0] == wildcard(),
        is_match_with(p, name, caps),
        k <= caps[0].len(),
        search(p.drop_first(), name.skip(caps[0].len() as int), 0) is Some,
    ensures
        search(p, name, k) is Some,
    decreases caps[0].len() - k,
{
    let m = caps[0].len();
    assert(caps.len() > 0);
    assert(name =~= caps[0] + fill(p.drop_first(), caps.drop_first()));
    assert(name.take(m as int) =~= caps[0]);
    assert(in_segment(caps[0]));
    let shorter = name.take(k as int);
    assert(in_segment(shorter)) by {
        assert forall|i: int| 0 <= i < shorter.len() implies shorter[i] != separator() by {
            assert(shorter[i] == caps[0][i]);
        }
    }
    if k < m {
        lemma_search_reaches(p, name, caps, k + 1);
    }
}

/// Where any match exists, `search` from the start finds one.
pub proof fn lemma_search_complete(p: Seq<char>, name: Seq<char>, caps: Seq<Seq<char>>)
    requires
        is_match_with(p, name, caps),
    ensures
        search(p, name, 0) is Some,
    decreases p.len(),
{
    if p.len() == 0 {
    } else if p[0] != wildcard() {
        assert(name =~= seq![p[0]] + fill(p.drop_first(), caps));
        assert(name.drop_first() =~= fill(p.drop_first(), caps));
        lemma_search_complete(p.drop_first(), name.drop_first(), caps);
    } else {
        let m = caps[0].len();
        assert(name =~= caps[0] + fill(p.drop_first(), caps.drop_first()));
        assert(name.skip(m as int) =~= fill(p.drop_first(), caps.drop_first()));
        assert forall|i: int| 0 <= i < caps.drop_first().len() implies in_segment(
            #[trigger] caps.drop_first()[i],
        ) by {
            assert(caps.drop_first()[i] == caps[i + 1]);
        }
        lemma_search_complete(p.drop_first(), name.skip(m as int), caps.drop_first());
        lemma_search_reaches(p, name, caps, 0);
    }
}

/// A pattern matches a name exactly when captures are found for it, and the
/// captures found are a match.
pub proof fn lemma_captures_decide(p: Seq<char>, name: Seq<char>)
    ensures
        captures(p, name) is Some <==> is_match(p, name),
        captures(p, name) matches Some(caps) ==> is_match_with(p, name, caps),
{
    lemma_search_sound(p, name, 0);
    if is_match(p, name) {
        let caps = choose|caps: Seq<Seq<char>>| is_match_with(p, name, caps);
        lemma_search_complete(p, name, caps);
    }
}

/// The characters of `v` from `from` up to, not including, `to`, as a string.
fn slice_text(v: &Vec<char>, from: usize, to: usize) -> (out: String)
    requires
        from <= to <= v.len(),
    ensures
        out@ == v@.subrange(from as int, to as int),
{
    let mut part: Vec<char> = Vec::new();
    let mut i: usize = from;
    while i < to
        invariant
            from <= i <= to <= v.len(),
            part@ == v@.subrange(from as int, i as int),
        decreases to - i,
    {
        part.push(v[i]);
        i = i + 1;
    }
    text_of(&part)
}

/// The search for captures on the rest of the pattern from `pi` and the rest
/// of the name from `ni`.
fn find_from(p: &Vec<char>, pi: usize, name: &Vec<char>, ni: usize) -> (r: Option<Vec<String>>)
    requires
        pi <= p.len(),
        ni <= name.len(),
    ensures
        match r {
            Some(caps) => search(p@.skip(pi as int), name@.skip(ni as int), 0) == Some(
                texts(caps@),
            ),
            None => search(p@.skip(pi as int), name@.skip(ni as int), 0) is None,
        },
    decreases p.len() - pi,
{
    let ghost ps = p@.skip(pi as int);
    let ghost ns = name@.skip(ni as int);
    if pi == p.len() {
        if ni == name.len() {
            let caps: Vec<String> = Vec::new();
            assert(texts(caps@) =~= Seq::<Seq<char>>::empty());
            return Some(caps);
        } else {
            return None;
        }
    }
    assert(ps.drop_first() =~= p@.skip(pi + 1));
    if p[pi] != '*' {
        if ni < name.len() && name[ni] == p[pi] {
            assert(ns.drop_first() =~= name@.skip(ni + 1));
            return find_from(p, pi + 1, name, ni + 1);
        } else {
            return None;
        }
    }
    let mut k: usize = 0;
    loop
        invariant
            pi < p.len(),
            p@[pi as int] == wildcard(),
            ni + k <= name.len(),
            ps == p@.skip(pi as int),
            ns == name@.skip(ni as int),
            ps.drop_first() == p@.skip(pi + 1),
            in_segment(ns.take(k as int)),
            search(ps, ns, 0) == search(ps, ns, k as nat),
        decreases name.len() - ni - k,
    {
        assert(ns.skip(k as int) =~= name@.skip(ni + k));
        match find_from(p, pi + 1, name, ni + k) {
            Some(mut rest) => {
                let ghost tail = texts(rest@);
                let cap = slice_text(name, ni, ni + k);
                assert(cap@ =~= ns.take(k as int));
                rest.insert(0, cap);
                assert(texts(rest@) =~= seq![ns.take(k as int)] + tail);
                return Some(rest);
            },
            None => {},
        }
        if ni + k == name.len() {
            assert(search(ps, ns, (k + 1) as nat) is None);
            return None;
        }
        let ghost longer = ns.take(k + 1);
        if name[ni + k] == '/' {
            assert(!in_segment(longer)) by {
                assert(longer[k as int] == separator());
            }
            assert(search(ps, ns, (k + 1) as nat) is None);
            return None;
        }
        assert(in_segment(longer)) by {
            assert forall|i: int| 0 <= i < longer.len() implies longer[i] != separator() by {
                if i < k {
                    assert(ns.take(k as int)[i] == longer[i]);
                }
            }
        }
        k = k + 1;
    }
}

/// Matches a name against a pattern.  Gives the captures, one for each
/// wildcard of the pattern in order, or `None` where the pattern does not
/// match the whole name.
pub fn match_pattern(pattern: &str, name: &str) -> (r: Option<Vec<String>>)
    ensures
        r is Some <==> is_match(pattern@, name@),
        match r {
            Some(caps) => captures(pattern@, name@) == Some(texts(caps@)) && is_match_with(
                pattern@,
                name@,
                texts(caps@),
            ),
            None => captures(pattern@, name@) is None,
        },
{
    let p = chars_of(pattern);
    let n = chars_of(name);
    proof {
        lemma_captures_decide(pattern@, name@);
        assert(p@.skip(0) =~= pattern@);
        assert(n@.skip(0) =~= name@);
    }
    find_from(&p, 0, &n, 0)
}

/// The character that opens a reference in a template.
pub open spec fn marker() -> char {
    '$'
}

/// Whether `c` is one of the decimal digits `0` to `9`.
pub open spec fn is_digit(c: char) -> bool {
    '0' <= c <= '9'
}

/// The number that a decimal digit stands for.
pub open spec fn digit_value(c: char) -> nat {
    (c as int - '0' as int) as nat
}

/// The text of a template for a name that matched with the given captures.
///
/// A `$` followed by a digit is a reference: `$0` stands for the whole name
/// and `$1` to `$9` for the first to ninth capture.  Every other character
/// stands for itself, a `$` that no digit follows too.  There is no text
/// where a reference asks for a capture that the match does not have.
pub open spec fn substitute(t: Seq<char>, name: Seq<char>, caps: Seq<Seq<char>>) -> Option<
    Seq<char>,
>
    decreases t.len(),
{
    if t.len() == 0 {
        Some(Seq::empty())
    } else if t[0] == marker() && t.len() >= 2 && is_digit(t[1]) {
        let k = digit_value(t[1]);
        if k > caps.len() {
            None
        } else {
            match substitute(t.skip(2), name, caps) {
                Some(rest) => Some(
                    if k == 0 {
                        name + rest
                    } else {
                        caps[k - 1] + rest
                    },
                ),
                None => None,
            }
        }
    } else {
        match substitute(t.drop_first(), name, caps) {
            Some(rest) => Some(seq![t[0]] + rest),
            None => None,
        }
    }
}

/// `substitute` on the rest of a template, after the text `done` that the
/// part before it has produced.
pub open spec fn substitute_after(
    done: Seq<char>,
    rest: Seq<char>,
    name: Seq<char>,
    caps: Seq<Seq<char>>,
) -> Option<Seq<char>> {
    match substitute(rest, name, caps) {
        Some(tail) => Some(done + tail),
        None => None,
    }
}

/// Fills a template in for a name and the captures of its match.  Gives
/// `None` exactly where the template refers to a capture that is not there.
pub fn substitute_text(template: &str, name: &str, caps: &Vec<String>) -> (r: Option<String>)
    ensures
        match r {
            Some(out) => substitute(template@, name@, texts(caps@)) == Some(out@),
            None => substitute(template@, name@, texts(caps@)) is None,
        },
{
    let t = chars_of(template);
    let mut out = String::new();
    let mut i: usize = 0;
    let ghost whole = substitute(template@, name@, texts(caps@));
    assert(t@.skip(0) =~= t@);
    assert(forall|tail: Seq<char>| #[trigger] (out@ + tail) =~= tail);
    while i < t.len()
        invariant
            i <= t.len(),
            t@ == template@,
            whole == substitute(template@, name@, texts(caps@)),
            whole == substitute_after(out@, t@.skip(i as int), name@, texts(caps@)),
        decreases t.len() - i,
    {
        let ghost rest = t@.skip(i as int);
        let ghost before = out@;
        let c = t[i];
        if c == '$' && i + 1 < t.len() && t[i + 1] >= '0' && t[i + 1] <= '9' {
            let k: usize = (t[i + 1] as u32 - '0' as u32) as usize;
            assert(k == digit_value(rest[1]));
            assert(rest.skip(2) =~= t@.skip(i + 2));
            if k > caps.len() {
                return None;
            }
            let ghost piece = if k == 0 {
                name@
            } else {
                texts(caps@)[k - 1]
            };
            if k == 0 {
                out.append(name);
            } else {
                out.append(caps[k - 1].as_str());
            }
            assert(out@ == before + piece);
            assert(forall|tail: Seq<char>| before + (piece + tail) =~= (before + piece) + tail);
            i = i + 2;
        } else {
            assert(rest.drop_first() =~= t@.skip(i + 1));
            push_char(&mut out, c);
            assert(forall|tail: Seq<char>|
                before + (seq![c] + tail) =~= before.push(c) + tail);
            i = i + 1;
        }
    }
    assert(t@.skip(i as int) =~= Seq::<char>::empty());
    assert(out@ + Seq::<char>::empty() =~= out@);
    Some(out)
}

} // verus!

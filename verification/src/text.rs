//! Small verified helpers for strings and lists of strings.
//!
//! Contracts throughout the crate speak of a string through its view, a
//! `Seq<char>`, and of a list of strings through [`texts`].

use vstd::prelude::*;

verus! {

/// The views of a list of strings, in order.
pub open spec fn texts(v: Seq<String>) -> Seq<Seq<char>> {
    Seq::new(v.len(), |i: int| v[i]@)
}

/// `i` is the first position at which `x` occurs in `s`.
pub open spec fn first_at<A>(s: Seq<A>, x: A, i: int) -> bool {
    &&& 0 <= i < s.len()
    &&& s[i] == x
    &&& forall|j: int| 0 <= j < i ==> s[j] != x
}

/// The first position at which `x` occurs in `s`, if it occurs there.
pub open spec fn find_first<A>(s: Seq<A>, x: A) -> Option<int> {
    if exists|i: int| first_at(s, x, i) {
        Some(choose|i: int| first_at(s, x, i))
    } else {
        None
    }
}

/// The first position of an element is the only one that `find_first` can
/// give, and an element that occurs has a first position.
pub proof fn lemma_find_first<A>(s: Seq<A>, x: A)
    ensures
        forall|i: int| first_at(s, x, i) ==> find_first(s, x) == Some(i),
        find_first(s, x) matches Some(i) ==> first_at(s, x, i),
        find_first(s, x) is None <==> !s.contains(x),
{
    assert forall|i: int| first_at(s, x, i) implies find_first(s, x) == Some(i) by {
        let j = choose|j: int| first_at(s, x, j);
        assert(first_at(s, x, j));
        if j < i {
            assert(s[j] != x);
        }
        if i < j {
            assert(s[i] != x);
        }
    }
    if s.contains(x) {
        lemma_has_first(s, x, s.len() as int);
    }
}

/// An element that occurs among the first `n` of `s` has a first position.
proof fn lemma_has_first<A>(s: Seq<A>, x: A, n: int)
    requires
        0 <= n <= s.len(),
        exists|i: int| 0 <= i < n && s[i] == x,
    ensures
        exists|i: int| first_at(s, x, i),
    decreases n,
{
    if exists|i: int| 0 <= i < n - 1 && s[i] == x {
        lemma_has_first(s, x, n - 1);
    } else {
        assert(s[n - 1] == x);
        assert(first_at(s, x, n - 1));
    }
}

/// No element occurs twice in `s`.
pub open spec fn distinct<A>(s: Seq<A>) -> bool {
    forall|i: int, j: int| 0 <= i < j < s.len() ==> s[i] != s[j]
}

/// The characters of a string, in order.
pub fn chars_of(s: &str) -> (out: Vec<char>)
    ensures
        out@ == s@,
{
    let mut out: Vec<char> = Vec::new();
    for c in it: s.chars()
        invariant
            out@ == s@.subrange(0, it.index() as int),
            it.seq() == s@,
    {
        out.push(c);
    }
    out
}

/// `String::push` of the standard library: appends one character to the
/// end of the string and changes nothing else.
#[verifier::external_body]
pub(crate) fn push_char(s: &mut String, c: char)
    ensures
        final(s)@ == old(s)@.push(c),
{
    s.push(c)
}

/// The string made of the given characters, in order.
pub fn text_of(chars: &Vec<char>) -> (out: String)
    ensures
        out@ == chars@,
{
    let mut out = String::new();
    let mut i: usize = 0;
    while i < chars.len()
        invariant
            i <= chars.len(),
            out@ == chars@.subrange(0, i as int),
        decreases chars.len() - i,
    {
        push_char(&mut out, chars[i]);
        i = i + 1;
    }
    out
}

/// An owned copy of a string slice.
pub fn owned(s: &str) -> (out: String)
    ensures
        out@ == s@,
{
    s.to_owned()
}

/// A copy of a list of strings.
pub fn copy_texts(v: &Vec<String>) -> (out: Vec<String>)
    ensures
        texts(out@) == texts(v@),
        out@.len() == v@.len(),
{
    let mut out: Vec<String> = Vec::new();
    let mut i: usize = 0;
    while i < v.len()
        invariant
            i <= v.len(),
            out@.len() == i,
            forall|j: int| 0 <= j < i ==> out@[j]@ == v@[j]@,
        decreases v.len() - i,
    {
        out.push(v[i].clone());
        i = i + 1;
    }
    out
}

/// The first position of `s` in `v`, if it occurs there.
pub fn position(v: &Vec<String>, s: &String) -> (r: Option<usize>)
    ensures
        match r {
            Some(i) => first_at(texts(v@), s@, i as int),
            None => !texts(v@).contains(s@),
        },
{
    let mut i: usize = 0;
    while i < v.len()
        invariant
            i <= v.len(),
            forall|j: int| 0 <= j < i ==> texts(v@)[j] != s@,
        decreases v.len() - i,
    {
        if v[i] == *s {
            return Some(i);
        }
        i = i + 1;
    }
    None
}

/// Whether `s` occurs in `v`.
pub fn contains_text(v: &Vec<String>, s: &String) -> (r: bool)
    ensures
        r == texts(v@).contains(s@),
{
    position(v, s).is_some()
}

/// Whether two string slices hold the same text.
pub fn same_str(a: &str, b: &str) -> (r: bool)
    ensures
        r == (a@ == b@),
{
    owned(a) == owned(b)
}

/// The character of a decimal digit.
pub open spec fn digit_char(d: nat) -> char {
    if d == 0 {
        '0'
    } else if d == 1 {
        '1'
    } else if d == 2 {
        '2'
    } else if d == 3 {
        '3'
    } else if d == 4 {
        '4'
    } else if d == 5 {
        '5'
    } else if d == 6 {
        '6'
    } else if d == 7 {
        '7'
    } else if d == 8 {
        '8'
    } else {
        '9'
    }
}

/// A number written in decimal, without leading zeros.
pub open spec fn decimal(n: nat) -> Seq<char>
    decreases n,
{
    if n < 10 {
        seq![digit_char(n)]
    } else {
        decimal(n / 10).push(digit_char(n % 10))
    }
}

/// The character of the decimal digit `d`.
fn digit(d: usize) -> (c: char)
    requires
        d < 10,
    ensures
        c == digit_char(d as nat),
{
    if d == 0 {
        '0'
    } else if d == 1 {
        '1'
    } else if d == 2 {
        '2'
    } else if d == 3 {
        '3'
    } else if d == 4 {
        '4'
    } else if d == 5 {
        '5'
    } else if d == 6 {
        '6'
    } else if d == 7 {
        '7'
    } else if d == 8 {
        '8'
    } else {
        '9'
    }
}

/// Writes a number in decimal.
pub fn to_decimal(n: usize) -> (out: String)
    ensures
        out@ == decimal(n as nat),
{
    let mut low: Vec<char> = Vec::new();
    let mut rest: usize = n;
    low.push(digit(rest % 10));
    rest = rest / 10;
    let ghost mut tail: Seq<char> = seq![digit_char((n % 10) as nat)];
    assert(decimal(n as nat) =~= if rest == 0 {
        tail
    } else {
        decimal(rest as nat) + tail
    });
    while rest > 0
        invariant
            low@.len() == tail.len(),
            low@.len() > 0,
            forall|k: int| 0 <= k < low@.len() ==> low@[k] == tail[tail.len() - 1 - k],
            decimal(n as nat) == if rest == 0 {
                tail
            } else {
                decimal(rest as nat) + tail
            },
        decreases rest,
    {
        let d = digit(rest % 10);
        let ghost before = tail;
        let ghost whole = rest;
        low.push(d);
        rest = rest / 10;
        proof {
            tail = seq![d] + before;
            assert(decimal(whole as nat) =~= if rest == 0 {
                seq![d]
            } else {
                decimal(rest as nat).push(d)
            });
            assert(decimal(whole as nat) + before =~= if rest == 0 {
                tail
            } else {
                decimal(rest as nat) + tail
            });
        }
    }
    let mut out = String::new();
    let mut k: usize = low.len();
    while k > 0
        invariant
            k <= low@.len(),
            low@.len() == tail.len(),
            forall|j: int| 0 <= j < low@.len() ==> low@[j] == tail[tail.len() - 1 - j],
            out@ == tail.take(low@.len() - k),
        decreases k,
    {
        k = k - 1;
        push_char(&mut out, low[k]);
        assert(out@ =~= tail.take(low@.len() - k));
    }
    assert(tail.take(tail.len() as int) =~= tail);
    out
}

/// A run of `n` spaces.
pub open spec fn spaces(n: nat) -> Seq<char> {
    Seq::new(n, |i: int| ' ')
}

/// A text followed by as many spaces as bring it to the given width; the
/// text alone where it is that wide or wider.
pub open spec fn padded_to(s: Seq<char>, width: nat) -> Seq<char> {
    if s.len() >= width {
        s
    } else {
        s + spaces((width - s.len()) as nat)
    }
}

/// Pads a text with spaces on the right to the given width.
pub fn padded(s: &str, width: usize) -> (out: String)
    ensures
        out@ == padded_to(s@, width as nat),
{
    let mut out = owned(s);
    let mut n = s.unicode_len();
    while n < width
        invariant
            s@.len() <= n,
            n <= width || n == s@.len(),
            out@ == s@ + spaces((n - s@.len()) as nat),
        decreases width - n,
    {
        push_char(&mut out, ' ');
        n = n + 1;
        assert(out@ =~= s@ + spaces((n - s@.len()) as nat));
    }
    assert(s@ + spaces(0) =~= s@);
    out
}

} // verus!

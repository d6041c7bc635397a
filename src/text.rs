use vstd::prelude::*;
use vstd::slice::*;

verus! {

/// ASCII whitespace, the characters that trimming removes.
pub open spec fn is_space(c: char) -> bool {
    c == ' ' || c == '\t' || c == '\n' || c == '\r' || c == '\x0b' || c == '\x0c'
}

/// The characters that a trim removes: whitespace, or with `quote` the
/// double quote.
pub open spec fn in_class(c: char, quote: bool) -> bool {
    if quote {
        c == '"'
    } else {
        is_space(c)
    }
}

pub open spec fn trim_front(s: Seq<char>, quote: bool) -> Seq<char>
    decreases s.len(),
{
    if s.len() > 0 && in_class(s[0], quote) {
        trim_front(s.drop_first(), quote)
    } else {
        s
    }
}

pub open spec fn trim_back(s: Seq<char>, quote: bool) -> Seq<char>
    decreases s.len(),
{
    if s.len() > 0 && in_class(s.last(), quote) {
        trim_back(s.drop_last(), quote)
    } else {
        s
    }
}

/// `s` without the characters of the class at either end.
pub open spec fn trimmed(s: Seq<char>, quote: bool) -> Seq<char> {
    trim_back(trim_front(s, quote), quote)
}

/// `s` with whitespace trimmed, then double quotes.
pub open spec fn unquoted(s: Seq<char>) -> Seq<char> {
    trimmed(trimmed(s, false), true)
}

/// The index of the first `c` in `s`, or the length of `s` when there is none.
pub open spec fn index_of(s: Seq<char>, c: char) -> nat
    decreases s.len(),
{
    if s.len() == 0 || s[0] == c {
        0
    } else {
        1 + index_of(s.drop_first(), c)
    }
}

pub proof fn lemma_index_of(s: Seq<char>, c: char, i: int)
    requires
        0 <= i <= s.len(),
        forall|j: int| 0 <= j < i ==> s[j] != c,
        i == s.len() || s[i] == c,
    ensures
        index_of(s, c) == i,
    decreases i,
{
    if i > 0 {
        lemma_index_of(s.drop_first(), c, i - 1);
    }
}

pub fn char_in_class(c: char, quote: bool) -> (r: bool)
    ensures
        r == in_class(c, quote),
{
    if quote {
        c == '"'
    } else {
        c == ' ' || c == '\t' || c == '\n' || c == '\r' || c == '\x0b' || c == '\x0c'
    }
}

/// Where the first `c` in `s` stands, or the length of `s`.
pub fn find_char(s: &[char], c: char) -> (r: usize)
    ensures
        r == index_of(s@, c),
        r <= s@.len(),
{
    let mut i: usize = 0;
    while i < s.len()
        invariant
            i <= s@.len(),
            forall|j: int| 0 <= j < i ==> s@[j] != c,
        decreases s@.len() - i,
    {
        if s[i] == c {
            proof {
                lemma_index_of(s@, c, i as int);
            }
            return i;
        }
        i = i + 1;
    }
    proof {
        lemma_index_of(s@, c, i as int);
    }
    i
}

/// `s` trimmed of the characters of the class at both ends.
pub fn trim_chars(s: &[char], quote: bool) -> (r: Vec<char>)
    ensures
        r@ == trimmed(s@, quote),
{
    let len = s.len();
    let mut lo: usize = 0;
    assert(s@.subrange(0, len as int) =~= s@);
    while lo < len && char_in_class(s[lo], quote)
        invariant
            lo <= len == s@.len(),
            trim_front(s@, quote) == trim_front(s@.subrange(lo as int, len as int), quote),
        decreases len - lo,
    {
        assert(s@.subrange(lo as int, len as int).drop_first() =~= s@.subrange(
            lo + 1,
            len as int,
        ));
        lo = lo + 1;
    }
    assert(trim_front(s@, quote) == s@.subrange(lo as int, len as int));
    let mut hi: usize = len;
    while hi > lo && char_in_class(s[hi - 1], quote)
        invariant
            lo <= hi <= len == s@.len(),
            trimmed(s@, quote) == trim_back(s@.subrange(lo as int, hi as int), quote),
        decreases hi - lo,
    {
        assert(s@.subrange(lo as int, hi as int).drop_last() =~= s@.subrange(
            lo as int,
            hi - 1,
        ));
        hi = hi - 1;
    }
    slice_to_vec(slice_subrange(s, lo, hi))
}

/// `s` trimmed of whitespace, then of double quotes.
pub fn unquote_chars(s: &[char]) -> (r: Vec<char>)
    ensures
        r@ == unquoted(s@),
{
    let t = trim_chars(s, false);
    trim_chars(t.as_slice(), true)
}


/// Facts on the first `c` in `s`.
pub proof fn lemma_index_of_facts(s: Seq<char>, c: char)
    ensures
        index_of(s, c) <= s.len(),
        index_of(s, c) < s.len() ==> s[index_of(s, c) as int] == c,
        forall|j: int| 0 <= j < index_of(s, c) ==> s[j] != c,
        !s.contains(c) ==> index_of(s, c) == s.len(),
    decreases s.len(),
{
    if s.len() > 0 && s[0] != c {
        lemma_index_of_facts(s.drop_first(), c);
        assert forall|j: int| 0 <= j < index_of(s, c) implies s[j] != c by {
            if j > 0 {
                assert(s[j] == s.drop_first()[j - 1]);
            }
        }
        if !s.contains(c) {
            assert(!s.drop_first().contains(c)) by {
                if s.drop_first().contains(c) {
                    let k = choose|k: int| 0 <= k < s.drop_first().len() && s.drop_first()[k] == c;
                    assert(s[k + 1] == c);
                }
            }
        }
    }
}

/// The first `c` in `x + y` is the first in `x`, or else the first in `y`.
pub proof fn lemma_index_of_concat(x: Seq<char>, y: Seq<char>, c: char)
    ensures
        index_of(x + y, c) == if index_of(x, c) < x.len() {
            index_of(x, c)
        } else {
            x.len() + index_of(y, c)
        },
    decreases x.len(),
{
    if x.len() == 0 {
        assert(x + y =~= y);
    } else if x[0] != c {
        assert((x + y).drop_first() =~= x.drop_first() + y);
        lemma_index_of_concat(x.drop_first(), y, c);
    }
}

/// Trimming leaves `s` as it is when neither end is of the class.
pub proof fn lemma_trimmed_unchanged(s: Seq<char>, quote: bool)
    requires
        s.len() > 0,
        !in_class(s[0], quote),
        !in_class(s.last(), quote),
    ensures
        trimmed(s, quote) == s,
{
}

/// Unquoting a quoted text, with or without one space before it, gives the
/// text back when it does not begin or end with a double quote.
pub proof fn lemma_unquote_quoted(n: Seq<char>, lead: Seq<char>)
    requires
        n.len() == 0 || (n[0] != '"' && n.last() != '"'),
        lead == Seq::<char>::empty() || lead == seq![' '],
    ensures
        unquoted(lead + seq!['"'] + n + seq!['"']) == n,
{
    let t = seq!['"'] + n + seq!['"'];
    let s = lead + t;
    assert(lead + seq!['"'] + n + seq!['"'] =~= s);
    assert(t[0] == '"');
    assert(t.last() == '"');
    assert(trim_front(t, false) == t);
    if lead.len() == 1 {
        assert(s[0] == ' ');
        assert(s.drop_first() =~= t);
        assert(trim_front(s, false) == trim_front(s.drop_first(), false));
    } else {
        assert(s =~= t);
    }
    assert(trim_front(s, false) == t);
    assert(trimmed(s, false) == t);
    let u = t.drop_first();
    assert(u =~= n + seq!['"']);
    assert(trimmed(s, false) == t);
    assert(trim_front(t, true) == trim_front(u, true));
    if n.len() == 0 {
        assert(u.drop_first() =~= Seq::<char>::empty());
        assert(trim_front(Seq::<char>::empty(), true) == Seq::<char>::empty());
        assert(u[0] == '"');
        assert(trim_front(u, true) == trim_front(u.drop_first(), true));
        assert(trim_front(u, true) == Seq::<char>::empty());
    } else {
        assert(u[0] == n[0]);
        assert(trim_front(u, true) == u);
        assert(u.drop_last() =~= n);
        assert(u.last() == '"');
        assert(trim_back(u, true) == trim_back(u.drop_last(), true));
        assert(trim_back(n, true) == n);
    }
    assert(trimmed(t, true) == n);
}

} // verus!

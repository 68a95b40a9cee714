//! Text as a sequence of characters: searching, trimming, splitting, ordering
//! and number rendering, each with the mathematical function it computes.
use vstd::prelude::*;

verus! {

/// `String::push` appends the one character it is given.
pub assume_specification[ String::push ](s: &mut String, c: char)
    ensures
        final(s)@ == old(s)@.push(c),
;

// ---------------------------------------------------------------- conversion

/// The characters of `s`, in order.
pub fn chars_of(s: &str) -> (v: Vec<char>)
    ensures
        v@ == s@,
{
    let mut v: Vec<char> = Vec::new();
    for c in it: s.chars()
        invariant
            it.seq() == s@,
            v@ == s@.take(it.index() as int),
    {
        v.push(c);
    }
    v
}

/// The text made of `v[from..to]`.
pub fn text_of(v: &Vec<char>, from: usize, to: usize) -> (s: String)
    requires
        from <= to <= v@.len(),
    ensures
        s@ == v@.subrange(from as int, to as int),
{
    let mut s: String = String::new();
    let mut i: usize = from;
    while i < to
        invariant
            from <= i <= to <= v@.len(),
            s@ == v@.subrange(from as int, i as int),
        decreases to - i,
    {
        s.push(v[i]);
        i += 1;
    }
    s
}

/// Whether two texts are the same.
pub fn same(a: &str, b: &str) -> (r: bool)
    ensures
        r == (a@ == b@),
{
    a.to_owned() == b.to_owned()
}

// --------------------------------------------------------------- white space

/// Whether `c` has the Unicode `White_Space` property.
pub open spec fn white_space(c: char) -> bool {
    let n = c as u32;
    ||| 0x9 <= n <= 0xd
    ||| n == 0x20
    ||| n == 0x85
    ||| n == 0xa0
    ||| n == 0x1680
    ||| 0x2000 <= n <= 0x200a
    ||| n == 0x2028
    ||| n == 0x2029
    ||| n == 0x202f
    ||| n == 0x205f
    ||| n == 0x3000
}

/// Whether `c` has the Unicode `White_Space` property.
pub fn is_white_space(c: char) -> (r: bool)
    ensures
        r == white_space(c),
{
    let n: u32 = c as u32;
    (0x9 <= n && n <= 0xd) || n == 0x20 || n == 0x85 || n == 0xa0 || n == 0x1680 || (0x2000 <= n
        && n <= 0x200a) || n == 0x2028 || n == 0x2029 || n == 0x202f || n == 0x205f || n == 0x3000
}

/// Nothing but white space.
pub open spec fn blank(s: Seq<char>) -> bool {
    forall|i: int| 0 <= i < s.len() ==> white_space(#[trigger] s[i])
}

/// `s` without its leading white space.
pub open spec fn trim_start(s: Seq<char>) -> Seq<char>
    decreases s.len(),
{
    if s.len() > 0 && white_space(s[0]) {
        trim_start(s.drop_first())
    } else {
        s
    }
}

/// `s` without its trailing white space.
pub open spec fn trim_end(s: Seq<char>) -> Seq<char>
    decreases s.len(),
{
    if s.len() > 0 && white_space(s.last()) {
        trim_end(s.drop_last())
    } else {
        s
    }
}

/// `s` without leading and trailing white space.
pub open spec fn trim(s: Seq<char>) -> Seq<char> {
    trim_end(trim_start(s))
}

/// A text is blank exactly when trimming leaves nothing of it.
pub proof fn law_blank_is_what_trims_to_nothing(s: Seq<char>)
    ensures
        blank(s) <==> trim(s).len() == 0,
{
    lemma_trim_start_blank(s);
    lemma_trim_end_blank(trim_start(s));
}

proof fn lemma_trim_start_blank(s: Seq<char>)
    ensures
        blank(s) <==> blank(trim_start(s)),
        blank(s) ==> trim_start(s).len() == 0,
    decreases s.len(),
{
    if s.len() > 0 && white_space(s[0]) {
        let t = s.drop_first();
        lemma_trim_start_blank(t);
        assert forall|i: int| blank(t) && 0 <= i < s.len() implies white_space(#[trigger] s[i]) by {
            if i > 0 {
                assert(t[i - 1] == s[i]);
            }
        }
        assert forall|i: int| blank(s) && 0 <= i < t.len() implies white_space(#[trigger] t[i]) by {
            assert(t[i] == s[i + 1]);
        }
    }
}

proof fn lemma_trim_end_blank(s: Seq<char>)
    ensures
        blank(s) <==> trim_end(s).len() == 0,
    decreases s.len(),
{
    if s.len() > 0 && white_space(s.last()) {
        let t = s.drop_last();
        lemma_trim_end_blank(t);
        assert forall|i: int| blank(t) && 0 <= i < s.len() implies white_space(#[trigger] s[i]) by {
            if i < t.len() {
                assert(t[i] == s[i]);
            }
        }
        assert forall|i: int| blank(s) && 0 <= i < t.len() implies white_space(#[trigger] t[i]) by {
            assert(t[i] == s[i]);
        }
    } else if s.len() > 0 {
        assert(!white_space(s[s.len() - 1]));
    }
}

/// Whether `s` is blank.
pub fn is_blank(s: &str) -> (r: bool)
    ensures
        r == blank(s@),
{
    let v: Vec<char> = chars_of(s);
    let mut i: usize = 0;
    while i < v.len()
        invariant
            v@ == s@,
            i <= v@.len(),
            forall|k: int| 0 <= k < i ==> white_space(#[trigger] v@[k]),
        decreases v@.len() - i,
    {
        if !is_white_space(v[i]) {
            return false;
        }
        i += 1;
    }
    true
}

/// Where the trailing white space of `v[from..to]` starts.
fn end_of_trimmed(v: &Vec<char>, from: usize, to: usize) -> (e: usize)
    requires
        from <= to <= v@.len(),
    ensures
        from <= e <= to,
        v@.subrange(from as int, e as int) == trim_end(v@.subrange(from as int, to as int)),
{
    let mut e: usize = to;
    while e > from && is_white_space(v[e - 1])
        invariant
            from <= e <= to <= v@.len(),
            trim_end(v@.subrange(from as int, e as int)) == trim_end(
                v@.subrange(from as int, to as int),
            ),
        decreases e,
    {
        proof {
            let cur = v@.subrange(from as int, e as int);
            assert(cur.drop_last() =~= v@.subrange(from as int, e - 1));
            assert(cur.last() == v@[e - 1]);
        }
        e -= 1;
    }
    proof {
        let cur = v@.subrange(from as int, e as int);
        if e > from {
            assert(cur.last() == v@[e - 1]);
        }
    }
    e
}

/// Where the leading white space of `v` ends.
fn start_of_trimmed(v: &Vec<char>) -> (b: usize)
    ensures
        b <= v@.len(),
        v@.subrange(b as int, v@.len() as int) == trim_start(v@),
{
    let mut b: usize = 0;
    assert(v@.subrange(0, v@.len() as int) =~= v@);
    while b < v.len() && is_white_space(v[b])
        invariant
            b <= v@.len(),
            trim_start(v@.subrange(b as int, v@.len() as int)) == trim_start(v@),
        decreases v@.len() - b,
    {
        proof {
            let cur = v@.subrange(b as int, v@.len() as int);
            assert(cur.drop_first() =~= v@.subrange(b + 1, v@.len() as int));
            assert(cur[0] == v@[b as int]);
        }
        b += 1;
    }
    proof {
        let cur = v@.subrange(b as int, v@.len() as int);
        if b < v@.len() {
            assert(cur[0] == v@[b as int]);
        }
    }
    b
}

/// `s` without leading and trailing white space.
pub fn trimmed(s: &str) -> (r: String)
    ensures
        r@ == trim(s@),
{
    let v: Vec<char> = chars_of(s);
    let b: usize = start_of_trimmed(&v);
    let e: usize = end_of_trimmed(&v, b, v.len());
    text_of(&v, b, e)
}

/// `s` without its trailing white space.
pub fn end_trimmed(s: &str) -> (r: String)
    ensures
        r@ == trim_end(s@),
{
    let v: Vec<char> = chars_of(s);
    let e: usize = end_of_trimmed(&v, 0, v.len());
    assert(v@.subrange(0, v@.len() as int) =~= v@);
    text_of(&v, 0, e)
}

// ----------------------------------------------------------------- searching

/// Whether `pat` stands in `s` at position `i`.
pub open spec fn occurs_at(s: Seq<char>, pat: Seq<char>, i: int) -> bool {
    0 <= i && i + pat.len() <= s.len() && s.subrange(i, i + pat.len()) == pat
}

/// The first position, at or after `from`, at which `pat` stands in `s`.
pub open spec fn find(s: Seq<char>, pat: Seq<char>, from: int) -> Option<int>
    decreases s.len() + 1 - from,
{
    if from < 0 || from + pat.len() > s.len() {
        None
    } else if occurs_at(s, pat, from) {
        Some(from)
    } else {
        find(s, pat, from + 1)
    }
}

/// `find` gives an occurrence, and the first one; where it gives none there is none.
pub proof fn lemma_find(s: Seq<char>, pat: Seq<char>, from: int)
    requires
        0 <= from,
    ensures
        match find(s, pat, from) {
            Some(i) => from <= i && occurs_at(s, pat, i) && forall|j: int|
                from <= j < i ==> !#[trigger] occurs_at(s, pat, j),
            None => forall|j: int| from <= j ==> !#[trigger] occurs_at(s, pat, j),
        },
    decreases s.len() + 1 - from,
{
    if from + pat.len() > s.len() {
    } else if occurs_at(s, pat, from) {
    } else {
        lemma_find(s, pat, from + 1);
    }
}

fn stands_at(v: &Vec<char>, pat: &Vec<char>, i: usize) -> (r: bool)
    requires
        i + pat@.len() <= v@.len(),
    ensures
        r == occurs_at(v@, pat@, i as int),
{
    let n: usize = v.len();
    let mut k: usize = 0;
    while k < pat.len()
        invariant
            k <= pat@.len(),
            n == v@.len(),
            i + pat@.len() <= n,
            forall|j: int| 0 <= j < k ==> v@[i + j] == #[trigger] pat@[j],
        decreases pat@.len() - k,
    {
        if v[i + k] != pat[k] {
            assert(v@.subrange(i as int, i + pat@.len())[k as int] != pat@[k as int]);
            return false;
        }
        k += 1;
    }
    assert(v@.subrange(i as int, i + pat@.len()) =~= pat@);
    true
}

/// The first position, at or after `from`, at which `pat` stands in `v`.
pub fn find_from(v: &Vec<char>, pat: &Vec<char>, from: usize) -> (r: Option<usize>)
    requires
        from <= v@.len(),
    ensures
        match r {
            Some(i) => find(v@, pat@, from as int) == Some(i as int),
            None => find(v@, pat@, from as int) is None,
        },
{
    if pat.len() > v.len() {
        return None;
    }
    let last: usize = v.len() - pat.len();
    let mut i: usize = from;
    while i <= last
        invariant
            from <= i <= v@.len() + 1,
            pat@.len() + last == v@.len(),
            find(v@, pat@, from as int) == find(v@, pat@, i as int),
        decreases v@.len() + 1 - i,
    {
        if stands_at(v, pat, i) {
            return Some(i);
        }
        if i == last {
            assert(find(v@, pat@, i + 1) is None);
            return None;
        }
        i += 1;
    }
    None
}

/// The position of the last `c` in `s`.
pub open spec fn last_position(s: Seq<char>, c: char) -> Option<int>
    decreases s.len(),
{
    if s.len() == 0 {
        None
    } else if s.last() == c {
        Some(s.len() - 1)
    } else {
        last_position(s.drop_last(), c)
    }
}

/// The position of the last `c` in `v`.
pub fn find_last(v: &Vec<char>, c: char) -> (r: Option<usize>)
    ensures
        match r {
            Some(i) => i < v@.len() && last_position(v@, c) == Some(i as int),
            None => last_position(v@, c) is None,
        },
{
    let mut e: usize = v.len();
    assert(v@.take(v@.len() as int) =~= v@);
    while e > 0
        invariant
            e <= v@.len(),
            last_position(v@, c) == last_position(v@.take(e as int), c),
        decreases e,
    {
        assert(v@.take(e as int).last() == v@[e - 1]);
        if v[e - 1] == c {
            return Some(e - 1);
        }
        assert(v@.take(e as int).drop_last() =~= v@.take(e - 1));
        e -= 1;
    }
    None
}

/// The position of the first `a` or `b` in `s`, or the length of `s`.
pub open spec fn first_stop(s: Seq<char>, a: char, b: char) -> int
    decreases s.len(),
{
    if s.len() == 0 || s[0] == a || s[0] == b {
        0
    } else {
        1 + first_stop(s.drop_first(), a, b)
    }
}

/// `first_stop` lies within the text, on a stop or at the end, with no stop before it.
pub proof fn lemma_first_stop(s: Seq<char>, a: char, b: char)
    ensures
        0 <= first_stop(s, a, b) <= s.len(),
        first_stop(s, a, b) < s.len() ==> (s[first_stop(s, a, b)] == a || s[first_stop(s, a, b)]
            == b),
        forall|i: int|
            0 <= i < first_stop(s, a, b) ==> #[trigger] s[i] != a && s[i] != b,
    decreases s.len(),
{
    if s.len() == 0 || s[0] == a || s[0] == b {
    } else {
        let t = s.drop_first();
        lemma_first_stop(t, a, b);
        assert forall|i: int| 0 <= i < first_stop(s, a, b) implies #[trigger] s[i] != a && s[i]
            != b by {
            if i > 0 {
                assert(t[i - 1] == s[i]);
            }
        }
    }
}

/// The part of `s` before its first `a` or `b`.
pub fn before_stop(s: &str, a: char, b: char) -> (r: String)
    ensures
        r@ == s@.take(first_stop(s@, a, b)),
{
    let v: Vec<char> = chars_of(s);
    let mut i: usize = 0;
    assert(v@.skip(0) =~= v@);
    while i < v.len() && v[i] != a && v[i] != b
        invariant
            v@ == s@,
            i <= v@.len(),
            first_stop(v@, a, b) == i + first_stop(v@.skip(i as int), a, b),
        decreases v@.len() - i,
    {
        assert(v@.skip(i as int)[0] == v@[i as int]);
        assert(v@.skip(i as int).drop_first() =~= v@.skip(i + 1));
        i += 1;
    }
    proof {
        if i < v@.len() {
            assert(v@.skip(i as int)[0] == v@[i as int]);
        }
    }
    assert(v@.subrange(0, i as int) =~= s@.take(i as int));
    text_of(&v, 0, i)
}

/// What `s` holds after the prefix `p`, if it starts with `p`.
pub open spec fn stripped(s: Seq<char>, p: Seq<char>) -> Option<Seq<char>> {
    if occurs_at(s, p, 0) {
        Some(s.skip(p.len() as int))
    } else {
        None
    }
}

/// The view of an optional text.
pub open spec fn opt_text(s: Option<String>) -> Option<Seq<char>> {
    match s {
        Some(t) => Some(t@),
        None => None,
    }
}

/// What `s` holds after the prefix `p`, if it starts with `p`.
pub fn strip_prefix(s: &str, p: &str) -> (r: Option<String>)
    ensures
        opt_text(r) == stripped(s@, p@),
{
    let v: Vec<char> = chars_of(s);
    let q = chars_of(p);
    if q.len() <= v.len() && stands_at(&v, &q, 0) {
        let r = text_of(&v, q.len(), v.len());
        assert(r@ =~= s@.skip(p@.len() as int));
        Some(r)
    } else {
        None
    }
}

/// Whether `pat` stands anywhere in `s`.
pub fn contains(s: &str, pat: &str) -> (r: bool)
    ensures
        r == (find(s@, pat@, 0) is Some),
{
    let v: Vec<char> = chars_of(s);
    let q = chars_of(pat);
    find_from(&v, &q, 0).is_some()
}

/// `s` cut at its first `c`: what stands before it and what stands after it.
pub open spec fn cut(s: Seq<char>, c: char) -> Option<(Seq<char>, Seq<char>)> {
    match find(s, seq![c], 0) {
        Some(i) => Some((s.take(i), s.skip(i + 1))),
        None => None,
    }
}

/// `s` cut at its last `c`: what stands before it and what stands after it.
pub open spec fn cut_last(s: Seq<char>, c: char) -> Option<(Seq<char>, Seq<char>)> {
    match last_position(s, c) {
        Some(i) => Some((s.take(i), s.skip(i + 1))),
        None => None,
    }
}

/// The view of an optional pair of texts.
pub open spec fn opt_pair(p: Option<(String, String)>) -> Option<(Seq<char>, Seq<char>)> {
    match p {
        Some(t) => Some((t.0@, t.1@)),
        None => None,
    }
}

/// `s` cut at its first `c`.
pub fn split_once(s: &str, c: char) -> (r: Option<(String, String)>)
    ensures
        opt_pair(r) == cut(s@, c),
{
    let v: Vec<char> = chars_of(s);
    let mut q: Vec<char> = Vec::new();
    q.push(c);
    assert(q@ =~= seq![c]);
    proof {
        lemma_find(v@, seq![c], 0);
    }
    let n: usize = v.len();
    match find_from(&v, &q, 0) {
        Some(i) => {
            assert(occurs_at(v@, seq![c], i as int) && i + 1 <= n);
            let a = text_of(&v, 0, i);
            let b = text_of(&v, i + 1, v.len());
            assert(a@ =~= s@.take(i as int));
            assert(b@ =~= s@.skip(i + 1));
            Some((a, b))
        },
        None => None,
    }
}

/// `s` cut at its last `c`.
pub fn rsplit_once(s: &str, c: char) -> (r: Option<(String, String)>)
    ensures
        opt_pair(r) == cut_last(s@, c),
{
    let v: Vec<char> = chars_of(s);
    let n: usize = v.len();
    match find_last(&v, c) {
        Some(i) => {
            let a = text_of(&v, 0, i);
            let b = text_of(&v, i + 1, v.len());
            assert(a@ =~= s@.take(i as int));
            assert(b@ =~= s@.skip(i + 1));
            Some((a, b))
        },
        None => None,
    }
}

/// `s` with every trailing `p` taken off.
pub open spec fn without_suffixes(s: Seq<char>, p: Seq<char>) -> Seq<char>
    decreases s.len(),
{
    if p.len() > 0 && p.len() <= s.len() && occurs_at(s, p, s.len() - p.len()) {
        without_suffixes(s.take(s.len() - p.len()), p)
    } else {
        s
    }
}

/// `s` with every leading `p` taken off.
pub open spec fn without_prefixes(s: Seq<char>, p: Seq<char>) -> Seq<char>
    decreases s.len(),
{
    if p.len() > 0 && occurs_at(s, p, 0) {
        without_prefixes(s.skip(p.len() as int), p)
    } else {
        s
    }
}

/// `s` with every trailing `p` taken off.
pub fn trim_end_matches(s: &str, p: &str) -> (r: String)
    ensures
        r@ == without_suffixes(s@, p@),
{
    let v: Vec<char> = chars_of(s);
    let q = chars_of(p);
    let mut e: usize = v.len();
    assert(v@.take(v@.len() as int) =~= v@);
    while 0 < q.len() && q.len() <= e && stands_at(&v, &q, e - q.len())
        invariant
            v@ == s@,
            q@ == p@,
            e <= v@.len(),
            without_suffixes(v@, q@) == without_suffixes(v@.take(e as int), q@),
        decreases e,
    {
        proof {
            let cur = v@.take(e as int);
            let at = e - q@.len();
            assert(cur.subrange(at, at + q@.len()) =~= v@.subrange(at, at + q@.len()));
            assert(cur.take(at) =~= v@.take(at));
        }
        e -= q.len();
    }
    proof {
        let cur = v@.take(e as int);
        if 0 < q@.len() <= e {
            let at = e - q@.len();
            assert(cur.subrange(at, at + q@.len()) =~= v@.subrange(at, at + q@.len()));
        }
    }
    assert(v@.subrange(0, e as int) =~= v@.take(e as int));
    text_of(&v, 0, e)
}

/// `s` with every leading `p` taken off.
pub fn trim_start_matches(s: &str, p: &str) -> (r: String)
    ensures
        r@ == without_prefixes(s@, p@),
{
    let v: Vec<char> = chars_of(s);
    let q = chars_of(p);
    let mut b: usize = 0;
    assert(v@.skip(0) =~= v@);
    while 0 < q.len() && q.len() <= v.len() - b && stands_at(&v, &q, b)
        invariant
            v@ == s@,
            q@ == p@,
            b <= v@.len(),
            without_prefixes(v@, q@) == without_prefixes(v@.skip(b as int), q@),
        decreases v@.len() - b,
    {
        proof {
            let cur = v@.skip(b as int);
            assert(cur.subrange(0, q@.len() as int) =~= v@.subrange(b as int, b + q@.len()));
            assert(cur.skip(q@.len() as int) =~= v@.skip(b + q@.len()));
        }
        b += q.len();
    }
    proof {
        let cur = v@.skip(b as int);
        if 0 < q@.len() <= cur.len() {
            assert(cur.subrange(0, q@.len() as int) =~= v@.subrange(b as int, b + q@.len()));
        }
    }
    assert(v@.subrange(b as int, v@.len() as int) =~= v@.skip(b as int));
    text_of(&v, b, v.len())
}

/// The lines of a text. A line ends at a line feed, together with a carriage
/// return right before it; a text that ends there has no further line.
pub open spec fn lines(s: Seq<char>) -> Seq<Seq<char>>
    decreases s.len(),
{
    if s.len() == 0 {
        Seq::empty()
    } else {
        match find(s, seq!['\n'], 0) {
            Some(i) => if 0 <= i < s.len() {
                seq![without_return(s.take(i))] + lines(s.skip(i + 1))
            } else {
                Seq::empty()
            },
            None => seq![s],
        }
    }
}

/// A line without the carriage return that ends it.
pub open spec fn without_return(s: Seq<char>) -> Seq<char> {
    if s.len() > 0 && s.last() == '\r' {
        s.drop_last()
    } else {
        s
    }
}

/// The views of a list of texts.
pub open spec fn texts(v: Seq<String>) -> Seq<Seq<char>> {
    v.map_values(|s: String| s@)
}

/// The lines of a text.
pub fn lines_of(s: &str) -> (r: Vec<String>)
    ensures
        texts(r@) == lines(s@),
{
    let v: Vec<char> = chars_of(s);
    let mut q: Vec<char> = Vec::new();
    q.push('\n');
    assert(q@ =~= seq!['\n']);
    let mut out: Vec<String> = Vec::new();
    let mut b: usize = 0;
    assert(v@.skip(0) =~= v@);
    assert(texts(out@) =~= Seq::<Seq<char>>::empty());
    while b < v.len()
        invariant
            v@ == s@,
            q@ == seq!['\n'],
            b <= v@.len(),
            texts(out@) + lines(v@.skip(b as int)) == lines(s@),
        decreases v@.len() - b,
    {
        let ghost cur = v@.skip(b as int);
        proof {
            lemma_find_skip(v@, seq!['\n'], b as int);
            lemma_find(cur, seq!['\n'], 0);
        }
        match find_from(&v, &q, b) {
            Some(i) => {
                assert(occurs_at(cur, seq!['\n'], i - b));
                let e: usize = if i > b && v[i - 1] == '\r' {
                    i - 1
                } else {
                    i
                };
                let line = text_of(&v, b, e);
                proof {
                    let l = cur.take(i - b);
                    assert(line@ =~= without_return(l)) by {
                        if i > b {
                            assert(l.last() == v@[i - 1]);
                        }
                    }
                    assert(cur.skip(i - b + 1) =~= v@.skip(i + 1));
                    assert(texts(out@.push(line)) =~= texts(out@).push(line@));
                    assert(texts(out@).push(line@) + lines(v@.skip(i + 1)) =~= texts(out@) + (
                    seq![line@] + lines(v@.skip(i + 1))));
                }
                out.push(line);
                b = i + 1;
            },
            None => {
                let line = text_of(&v, b, v.len());
                assert(line@ =~= cur);
                assert(texts(out@.push(line)) =~= texts(out@) + seq![line@]);
                out.push(line);
                return out;
            },
        }
    }
    assert(texts(out@) + Seq::<Seq<char>>::empty() =~= texts(out@));
    out
}

/// Searching from `b` is searching what stands after `b`.
pub proof fn lemma_find_skip(s: Seq<char>, pat: Seq<char>, b: int)
    requires
        0 <= b <= s.len(),
    ensures
        match find(s, pat, b) {
            Some(i) => find(s.skip(b), pat, 0) == Some(i - b),
            None => find(s.skip(b), pat, 0) is None,
        },
{
    lemma_find_shift(s, pat, b, 0);
}

proof fn lemma_find_shift(s: Seq<char>, pat: Seq<char>, b: int, k: int)
    requires
        0 <= b <= s.len(),
        0 <= k,
    ensures
        match find(s, pat, b + k) {
            Some(i) => find(s.skip(b), pat, k) == Some(i - b),
            None => find(s.skip(b), pat, k) is None,
        },
    decreases s.len() + 1 - b - k,
{
    let t = s.skip(b);
    if b + k + pat.len() > s.len() {
    } else {
        assert(t.subrange(k, k + pat.len()) =~= s.subrange(b + k, b + k + pat.len()));
        if !occurs_at(s, pat, b + k) {
            lemma_find_shift(s, pat, b, k + 1);
        }
    }
}

/// The last `n` characters of a text.
pub open spec fn last_chars(s: Seq<char>, n: nat) -> Seq<char> {
    if s.len() <= n {
        s
    } else {
        s.skip(s.len() - n)
    }
}

// ------------------------------------------------------------------ ordering

/// The order of texts: character by character, a prefix before what extends it.
pub open spec fn lex_lt(a: Seq<char>, b: Seq<char>) -> bool
    decreases a.len(),
{
    if b.len() == 0 {
        false
    } else if a.len() == 0 {
        true
    } else if a[0] != b[0] {
        (a[0] as int) < (b[0] as int)
    } else {
        lex_lt(a.drop_first(), b.drop_first())
    }
}

/// No text comes before itself.
pub proof fn lemma_lex_irreflexive(a: Seq<char>)
    ensures
        !lex_lt(a, a),
    decreases a.len(),
{
    if a.len() > 0 {
        lemma_lex_irreflexive(a.drop_first());
    }
}

/// The order is transitive.
pub proof fn lemma_lex_transitive(a: Seq<char>, b: Seq<char>, c: Seq<char>)
    requires
        lex_lt(a, b),
        lex_lt(b, c),
    ensures
        lex_lt(a, c),
    decreases a.len(),
{
    if a.len() > 0 && a[0] == b[0] && b[0] == c[0] {
        lemma_lex_transitive(a.drop_first(), b.drop_first(), c.drop_first());
    }
}

/// Of two different texts one comes before the other.
pub proof fn lemma_lex_total(a: Seq<char>, b: Seq<char>)
    ensures
        lex_lt(a, b) || lex_lt(b, a) || a == b,
    decreases a.len(),
{
    if a.len() == 0 || b.len() == 0 {
        if a.len() == 0 && b.len() == 0 {
            assert(a =~= b);
        }
    } else if a[0] == b[0] {
        lemma_lex_total(a.drop_first(), b.drop_first());
        if a.drop_first() == b.drop_first() {
            assert(a =~= seq![a[0]] + a.drop_first());
            assert(b =~= seq![b[0]] + b.drop_first());
        }
    } else {
        assert(a[0] as int != b[0] as int);
    }
}

fn code_point(c: char) -> (n: u32)
    ensures
        n == c as int,
{
    c as u32
}

/// Whether `a` comes before `b`.
pub fn precedes(a: &str, b: &str) -> (r: bool)
    ensures
        r == lex_lt(a@, b@),
{
    let u = chars_of(a);
    let v = chars_of(b);
    let mut i: usize = 0;
    assert(u@.skip(0) =~= u@);
    assert(v@.skip(0) =~= v@);
    while i < u.len() && i < v.len()
        invariant
            u@ == a@,
            v@ == b@,
            i <= u@.len(),
            i <= v@.len(),
            lex_lt(a@, b@) == lex_lt(u@.skip(i as int), v@.skip(i as int)),
        decreases u@.len() - i,
    {
        proof {
            assert(u@.skip(i as int)[0] == u@[i as int]);
            assert(v@.skip(i as int)[0] == v@[i as int]);
            assert(u@.skip(i as int).drop_first() =~= u@.skip(i + 1));
            assert(v@.skip(i as int).drop_first() =~= v@.skip(i + 1));
        }
        let x: char = u[i];
        let y: char = v[i];
        if x != y {
            return code_point(x) < code_point(y);
        }
        i += 1;
    }
    i < v.len()
}

// ------------------------------------------------------------------- joining

/// The texts in order, with `sep` between neighbours.
pub open spec fn joined(parts: Seq<Seq<char>>, sep: Seq<char>) -> Seq<char>
    decreases parts.len(),
{
    if parts.len() == 0 {
        Seq::empty()
    } else if parts.len() == 1 {
        parts[0]
    } else {
        joined(parts.drop_last(), sep) + sep + parts.last()
    }
}

/// The texts in order, with `sep` between neighbours.
pub fn join(parts: &Vec<String>, sep: &str) -> (r: String)
    ensures
        r@ == joined(texts(parts@), sep@),
{
    let mut r: String = String::new();
    let mut i: usize = 0;
    assert(texts(parts@).take(0) =~= Seq::<Seq<char>>::empty());
    while i < parts.len()
        invariant
            i <= parts@.len(),
            r@ == joined(texts(parts@).take(i as int), sep@),
        decreases parts@.len() - i,
    {
        proof {
            let all = texts(parts@);
            let next = all.take(i + 1);
            assert(next.drop_last() =~= all.take(i as int));
            assert(next.last() == parts@[i as int]@);
        }
        if i > 0 {
            r.append(sep);
        }
        r.append(parts[i].as_str());
        proof {
            if i == 0 {
                assert(r@ =~= parts@[0]@);
            }
        }
        i += 1;
    }
    assert(texts(parts@).take(parts@.len() as int) =~= texts(parts@));
    r
}

/// `n` spaces.
pub open spec fn spaces(n: nat) -> Seq<char> {
    Seq::new(n, |i: int| ' ')
}

/// `s` filled up with spaces on the right to `width` characters.
pub open spec fn padded(s: Seq<char>, width: nat) -> Seq<char> {
    if s.len() >= width {
        s
    } else {
        s + spaces((width - s.len()) as nat)
    }
}

/// `s` filled up with spaces on the right to `width` characters.
pub fn pad(s: &str, width: usize) -> (r: String)
    ensures
        r@ == padded(s@, width as nat),
{
    let mut r: String = s.to_owned();
    let mut n: usize = chars_of(s).len();
    while n < width
        invariant
            s@.len() <= n,
            n <= width || n == s@.len(),
            r@ == s@ + spaces((n - s@.len()) as nat),
        decreases width - n,
    {
        r.push(' ');
        n += 1;
    }
    r
}

// ------------------------------------------------------------------- numbers

/// The character of a decimal digit.
pub open spec fn digit(d: nat) -> char {
    (48 + d) as char
}

/// The decimal digits of `n`.
pub open spec fn decimal(n: nat) -> Seq<char>
    decreases n,
{
    if n < 10 {
        seq![digit(n)]
    } else {
        decimal(n / 10).push(digit(n % 10))
    }
}

/// The decimal form of an integer.
pub open spec fn int_text(i: int) -> Seq<char> {
    if i < 0 {
        seq!['-'] + decimal((-i) as nat)
    } else {
        decimal(i as nat)
    }
}

fn digit_char(d: u8) -> (c: char)
    requires
        d < 10,
    ensures
        c == digit(d as nat),
{
    (48 + d) as char
}

/// The decimal digits of `n`.
pub fn decimal_text(n: u64) -> (s: String)
    ensures
        s@ == decimal(n as nat),
    decreases n,
{
    let mut s: String = if n < 10 {
        String::new()
    } else {
        decimal_text(n / 10)
    };
    s.push(digit_char((n % 10) as u8));
    proof {
        if n < 10 {
            assert(s@ =~= seq![digit(n as nat)]);
        }
    }
    s
}

/// The decimal form of an integer.
pub fn integer_text(i: i64) -> (s: String)
    ensures
        s@ == int_text(i as int),
{
    if i < 0 {
        let m: u64 = if i == i64::MIN {
            0x8000_0000_0000_0000
        } else {
            (-i) as u64
        };
        let mut s: String = "-".to_owned();
        s.append(decimal_text(m).as_str());
        proof {
            reveal_strlit("-");
            assert("-"@ =~= seq!['-']);
        }
        s
    } else {
        decimal_text(i as u64)
    }
}

/// Decimal digits are digits, and there is at least one.
pub proof fn lemma_decimal_digits(n: nat)
    ensures
        decimal(n).len() >= 1,
        forall|i: int| 0 <= i < decimal(n).len() ==> is_digit(#[trigger] decimal(n)[i]),
    decreases n,
{
    if n >= 10 {
        lemma_decimal_digits(n / 10);
    }
}

/// Whether `c` is a decimal digit.
pub open spec fn is_digit(c: char) -> bool {
    48 <= c as u32 <= 57
}

/// The number that a run of decimal digits stands for.
pub open spec fn digits_value(s: Seq<char>) -> Option<nat>
    decreases s.len(),
{
    if s.len() == 0 {
        None
    } else if !is_digit(s.last()) {
        None
    } else if s.len() == 1 {
        Some((s.last() as u32 - 48) as nat)
    } else {
        match digits_value(s.drop_last()) {
            Some(n) => Some(n * 10 + (s.last() as u32 - 48) as nat),
            None => None,
        }
    }
}

/// Reading the decimal digits of a number gives the number back.
pub proof fn lemma_decimal_round_trip(n: nat)
    ensures
        digits_value(decimal(n)) == Some(n),
    decreases n,
{
    if n >= 10 {
        lemma_decimal_round_trip(n / 10);
        lemma_decimal_digits(n / 10);
        assert(decimal(n).drop_last() =~= decimal(n / 10));
    }
}

/// The integer that a text stands for: an optional sign, then decimal digits.
/// A minus sign counts as a sign only where negative numbers are allowed.
pub open spec fn integer_value(s: Seq<char>, signed: bool) -> Option<int> {
    if s.len() > 0 && s[0] == '+' {
        match digits_value(s.skip(1)) {
            Some(n) => Some(n as int),
            None => None,
        }
    } else if signed && s.len() > 0 && s[0] == '-' {
        match digits_value(s.skip(1)) {
            Some(n) => Some(-(n as int)),
            None => None,
        }
    } else {
        match digits_value(s) {
            Some(n) => Some(n as int),
            None => None,
        }
    }
}

proof fn lemma_digits_grow(s: Seq<char>, k: int)
    requires
        1 <= k <= s.len(),
        digits_value(s) is Some,
    ensures
        digits_value(s.take(k)) is Some,
        digits_value(s.take(k))->0 <= digits_value(s)->0,
    decreases s.len(),
{
    if k == s.len() {
        assert(s.take(k) =~= s);
    } else {
        lemma_digits_grow(s.drop_last(), k);
        assert(s.drop_last().take(k) =~= s.take(k));
    }
}

/// The value of the digits `v[from..]`, where it is at most `max`.
fn read_digits(v: &Vec<char>, from: usize, max: u64) -> (r: Option<u64>)
    requires
        from <= v@.len(),
    ensures
        match r {
            Some(n) => n <= max && digits_value(v@.skip(from as int)) == Some(n as nat),
            None => match digits_value(v@.skip(from as int)) {
                Some(n) => n > max,
                None => true,
            },
        },
{
    if from == v.len() {
        return None;
    }
    let ghost all = v@.skip(from as int);
    let mut n: u64 = 0;
    let mut i: usize = from;
    while i < v.len()
        invariant
            from <= i <= v@.len(),
            from < v@.len(),
            all == v@.skip(from as int),
            n <= max,
            i == from ==> n == 0,
            i > from ==> digits_value(all.take(i - from)) == Some(n as nat),
        decreases v@.len() - i,
    {
        let c: u32 = v[i] as u32;
        let ghost next = all.take(i - from + 1);
        proof {
            assert(next.last() == v@[i as int]);
            assert(next.drop_last() =~= all.take(i - from));
            if digits_value(all) is Some {
                lemma_digits_grow(all, i - from + 1);
            }
        }
        if c < 48 || 57 < c {
            return None;
        }
        let d: u64 = (c - 48) as u64;
        let wide: u128 = n as u128 * 10 + d as u128;
        if wide > max as u128 {
            return None;
        }
        n = wide as u64;
        i += 1;
    }
    assert(all.take(v@.len() - from) =~= all);
    Some(n)
}

/// The unsigned number, at most `max`, that a text stands for.
pub open spec fn unsigned_value(s: Seq<char>, max: u64) -> Option<u64> {
    match integer_value(s, false) {
        Some(n) => if n <= max {
            Some(n as u64)
        } else {
            None
        },
        None => None,
    }
}

/// The 64-bit integer that a text stands for.
pub open spec fn i64_value(s: Seq<char>) -> Option<i64> {
    match integer_value(s, true) {
        Some(n) => if i64::MIN <= n <= i64::MAX {
            Some(n as i64)
        } else {
            None
        },
        None => None,
    }
}

/// The unsigned number, at most `max`, that a text stands for.
pub fn parse_unsigned(s: &str, max: u64) -> (r: Option<u64>)
    ensures
        r == unsigned_value(s@, max),
{
    let v: Vec<char> = chars_of(s);
    assert(v@.skip(0) =~= s@);
    if v.len() > 0 && v[0] == '+' {
        read_digits(&v, 1, max)
    } else {
        read_digits(&v, 0, max)
    }
}

/// The 64-bit integer that a text stands for.
pub fn parse_integer(s: &str) -> (r: Option<i64>)
    ensures
        r == i64_value(s@),
{
    let v: Vec<char> = chars_of(s);
    assert(v@.skip(0) =~= s@);
    if v.len() > 0 && v[0] == '-' {
        match read_digits(&v, 1, 0x8000_0000_0000_0000) {
            Some(n) => if n == 0x8000_0000_0000_0000 {
                Some(i64::MIN)
            } else {
                Some(-(n as i64))
            },
            None => None,
        }
    } else {
        let from: usize = if v.len() > 0 && v[0] == '+' {
            1
        } else {
            0
        };
        match read_digits(&v, from, 0x7fff_ffff_ffff_ffff) {
            Some(n) => Some(n as i64),
            None => None,
        }
    }
}

// -------------------------------------------------------------- alphanumeric

/// Whether a character beyond ASCII is a letter or a digit.
pub uninterp spec fn alphanumeric_beyond_ascii(c: char) -> bool;

/// `char::is_alphanumeric`: whether the character is a letter or a digit, by the
/// tables of the standard library.
#[verifier::external_body]
fn std_alphanumeric(c: char) -> (r: bool)
    ensures
        r == alphanumeric_beyond_ascii(c),
{
    c.is_alphanumeric()
}

/// Whether a character is a letter or a digit.
pub open spec fn alphanumeric(c: char) -> bool {
    if (c as int) < 128 {
        '0' <= c <= '9' || 'a' <= c <= 'z' || 'A' <= c <= 'Z'
    } else {
        alphanumeric_beyond_ascii(c)
    }
}

/// Whether a character is a letter or a digit.
pub fn is_alphanumeric(c: char) -> (r: bool)
    ensures
        r == alphanumeric(c),
{
    if (c as u32) < 128 {
        ('0' <= c && c <= '9') || ('a' <= c && c <= 'z') || ('A' <= c && c <= 'Z')
    } else {
        std_alphanumeric(c)
    }
}

/// The text with every character but letters, digits and hyphens replaced by `_`.
pub open spec fn safe_name(s: Seq<char>) -> Seq<char> {
    s.map_values(
        |c: char|
            if alphanumeric(c) || c == '-' {
                c
            } else {
                '_'
            },
    )
}

/// A name that is fit for a path: letters, digits and hyphens stay, every other
/// character becomes an underscore.
pub fn safe(s: &str) -> (r: String)
    ensures
        r@ == safe_name(s@),
{
    let v: Vec<char> = chars_of(s);
    let mut r: String = String::new();
    let mut i: usize = 0;
    while i < v.len()
        invariant
            i <= v@.len(),
            v@ == s@,
            r@ == safe_name(s@.take(i as int)),
        decreases v@.len() - i,
    {
        let c: char = v[i];
        if is_alphanumeric(c) || c == '-' {
            r.push(c);
        } else {
            r.push('_');
        }
        i += 1;
        assert(r@ =~= safe_name(s@.take(i as int)));
    }
    assert(s@.take(i as int) =~= s@);
    r
}

// -------------------------------------------------------------- chosen lines

/// The lines of a text that are not blank.
pub open spec fn filled_lines(s: Seq<char>) -> Seq<Seq<char>> {
    lines(s).filter(|l: Seq<char>| !blank(l))
}

/// The lines of a text that are not blank.
pub fn filled_lines_of(s: &str) -> (r: Vec<String>)
    ensures
        texts(r@) == filled_lines(s@),
{
    let all: Vec<String> = lines_of(s);
    let ghost keep = |l: Seq<char>| !blank(l);
    let mut r: Vec<String> = Vec::new();
    let mut i: usize = 0;
    while i < all.len()
        invariant
            i <= all@.len(),
            texts(all@) == lines(s@),
            keep == (|l: Seq<char>| !blank(l)),
            texts(r@) == lines(s@).take(i as int).filter(keep),
        decreases all@.len() - i,
    {
        let ghost before = r@;
        if !is_blank(all[i].as_str()) {
            r.push(all[i].clone());
            assert(texts(r@) =~= texts(before).push(all@[i as int]@));
        }
        proof {
            reveal(Seq::filter);
            let next = lines(s@).take(i + 1);
            assert(next.drop_last() =~= lines(s@).take(i as int));
            assert(next.last() == texts(all@)[i as int]);
        }
        i += 1;
    }
    assert(lines(s@).take(i as int) =~= lines(s@));
    r
}

// --------------------------------------------------------------------- bytes

/// Bytes read as UTF-8, with what is not UTF-8 replaced.
pub uninterp spec fn lossy_text(bytes: Seq<u8>) -> Seq<char>;

/// `String::from_utf8_lossy`: the text of the bytes. Bytes that are UTF-8 give
/// the text they encode; of others only the name of the result is stated.
#[verifier::external_body]
fn std_lossy(bytes: &[u8]) -> (r: String)
    ensures
        r@ == lossy_text(bytes@),
        vstd::utf8::valid_utf8(bytes@) ==> r@ == vstd::utf8::decode_utf8(bytes@),
{
    String::from_utf8_lossy(bytes).into_owned()
}

/// Bytes read as text, with what is not UTF-8 replaced.
pub fn lossy(bytes: &[u8]) -> (r: String)
    ensures
        r@ == lossy_text(bytes@),
        vstd::utf8::valid_utf8(bytes@) ==> r@ == vstd::utf8::decode_utf8(bytes@),
{
    std_lossy(bytes)
}

/// The last `n` characters of a text, or all of a shorter one.
pub fn last_of(s: &str, n: usize) -> (r: String)
    ensures
        r@ == last_chars(s@, n as nat),
{
    let v: Vec<char> = chars_of(s);
    let len: usize = v.len();
    if len <= n {
        assert(last_chars(s@, n as nat) =~= s@);
        s.to_owned()
    } else {
        text_of(&v, len - n, len)
    }
}

/// The last `n` characters of some bytes read as text.
pub fn tail(bytes: &[u8], n: usize) -> (r: String)
    ensures
        r@ == last_chars(lossy_text(bytes@), n as nat),
        r@.len() <= n,
{
    last_of(lossy(bytes).as_str(), n)
}

// ------------------------------------------------------------------ literals

/// The texts of some string slices.
pub open spec fn literals(v: Seq<&str>) -> Seq<Seq<char>> {
    v.map_values(|s: &str| s@)
}

/// Owned copies of some string slices.
pub fn owned(v: Vec<&str>) -> (r: Vec<String>)
    ensures
        texts(r@) == literals(v@),
{
    let mut r: Vec<String> = Vec::new();
    let mut i: usize = 0;
    while i < v.len()
        invariant
            i <= v@.len(),
            texts(r@) == literals(v@).take(i as int),
        decreases v@.len() - i,
    {
        let ghost before = r@;
        r.push(v[i].to_owned());
        i += 1;
        assert(texts(r@) =~= texts(before).push(v@[i - 1]@));
        assert(texts(r@) =~= literals(v@).take(i as int));
    }
    assert(literals(v@).take(i as int) =~= literals(v@));
    r
}

/// Some texts, one behind the other.
pub open spec fn flat(parts: Seq<Seq<char>>) -> Seq<char>
    decreases parts.len(),
{
    if parts.len() == 0 {
        Seq::empty()
    } else {
        flat(parts.drop_last()) + parts.last()
    }
}

/// The texts of some slices, one behind the other.
pub fn say(parts: Vec<&str>) -> (r: String)
    ensures
        r@ == flat(literals(parts@)),
{
    let mut r: String = String::new();
    let mut i: usize = 0;
    while i < parts.len()
        invariant
            i <= parts@.len(),
            r@ == flat(literals(parts@).take(i as int)),
        decreases parts@.len() - i,
    {
        let ghost next = literals(parts@).take(i + 1);
        assert(next.drop_last() =~= literals(parts@).take(i as int));
        r.append(parts[i]);
        i += 1;
    }
    assert(literals(parts@).take(i as int) =~= literals(parts@));
    r
}

// --------------------------------------------------------------------- words

/// Where the first white space of a text stands, or its end.
pub open spec fn word_end(s: Seq<char>) -> int
    decreases s.len(),
{
    if s.len() == 0 || white_space(s[0]) {
        0
    } else {
        1 + word_end(s.drop_first())
    }
}

/// The words of a text: its runs of characters that are not white space.
pub open spec fn words(s: Seq<char>) -> Seq<Seq<char>>
    decreases s.len(),
{
    if s.len() == 0 {
        Seq::empty()
    } else if white_space(s[0]) {
        words(s.drop_first())
    } else if 0 < word_end(s) <= s.len() {
        seq![s.take(word_end(s))] + words(s.skip(word_end(s)))
    } else {
        Seq::empty()
    }
}

proof fn lemma_word_end(s: Seq<char>)
    ensures
        0 <= word_end(s) <= s.len(),
        forall|i: int| 0 <= i < word_end(s) ==> !white_space(#[trigger] s[i]),
        word_end(s) < s.len() ==> white_space(s[word_end(s)]),
    decreases s.len(),
{
    if s.len() > 0 && !white_space(s[0]) {
        let rest = s.drop_first();
        lemma_word_end(rest);
        assert forall|i: int| 0 <= i < word_end(s) implies !white_space(#[trigger] s[i]) by {
            if i > 0 {
                assert(rest[i - 1] == s[i]);
            }
        }
        if word_end(s) < s.len() {
            assert(rest[word_end(rest)] == s[word_end(s)]);
        }
    }
}

proof fn lemma_word_end_is(s: Seq<char>, k: int)
    requires
        0 <= k <= s.len(),
        forall|i: int| 0 <= i < k ==> !white_space(#[trigger] s[i]),
        k < s.len() ==> white_space(s[k]),
    ensures
        word_end(s) == k,
{
    lemma_word_end(s);
    if word_end(s) < k {
        assert(!white_space(s[word_end(s)]));
    } else if k < word_end(s) {
        assert(!white_space(s[k]));
    }
}

/// The words of a text.
pub fn words_of(s: &str) -> (r: Vec<String>)
    ensures
        texts(r@) == words(s@),
{
    let v: Vec<char> = chars_of(s);
    let n: usize = v.len();
    let mut r: Vec<String> = Vec::new();
    let mut i: usize = 0;
    assert(v@.skip(0) =~= v@);
    assert(texts(r@) =~= Seq::empty());
    assert(words(s@) =~= texts(r@) + words(v@.skip(0)));
    while i < n
        invariant
            n == v@.len(),
            v@ == s@,
            i <= n,
            words(s@) == texts(r@) + words(v@.skip(i as int)),
        decreases n - i,
    {
        let ghost rest = v@.skip(i as int);
        let c: char = v[i];
        assert(rest[0] == c);
        if is_white_space(c) {
            assert(rest.drop_first() =~= v@.skip(i + 1));
            i += 1;
        } else {
            let mut e: usize = i + 1;
            while e < n && !is_white_space(v[e])
                invariant
                    n == v@.len(),
                    i < e <= n,
                    forall|k: int| i <= k < e ==> !white_space(#[trigger] v@[k]),
                decreases n - e,
            {
                e += 1;
            }
            let ghost before = r@;
            r.push(text_of(&v, i, e));
            proof {
                let k = e - i;
                assert forall|j: int| 0 <= j < k implies !white_space(#[trigger] rest[j]) by {
                    assert(rest[j] == v@[i + j]);
                }
                if k < rest.len() {
                    assert(rest[k] == v@[e as int]);
                }
                lemma_word_end_is(rest, k);
                assert(rest.take(k) =~= v@.subrange(i as int, e as int));
                assert(rest.skip(k) =~= v@.skip(e as int));
                assert(texts(r@) =~= texts(before).push(rest.take(k)));
                assert(texts(r@) + words(v@.skip(e as int)) =~= texts(before) + (
                seq![rest.take(k)] + words(rest.skip(k))));
            }
            i = e;
        }
    }
    assert(v@.skip(i as int) =~= Seq::empty());
    assert(words(s@) =~= texts(r@));
    r
}

// ------------------------------------------------------------------- preview

/// The first `n` characters of a text on one line: each line break is a space.
pub open spec fn preview(s: Seq<char>, n: nat) -> Seq<char> {
    let head = if s.len() <= n {
        s
    } else {
        s.take(n as int)
    };
    head.map_values(
        |c: char|
            if c == '\n' {
                ' '
            } else {
                c
            },
    )
}

/// The first `n` characters of a text on one line.
pub fn preview_of(s: &str, n: usize) -> (r: String)
    ensures
        r@ == preview(s@, n as nat),
{
    let v: Vec<char> = chars_of(s);
    let mut r: String = String::new();
    let mut i: usize = 0;
    while i < v.len() && i < n
        invariant
            i <= v@.len(),
            i <= n,
            v@ == s@,
            r@.len() == i,
            forall|k: int|
                0 <= k < i ==> #[trigger] r@[k] == if s@[k] == '\n' {
                    ' '
                } else {
                    s@[k]
                },
        decreases v@.len() - i,
    {
        let c: char = v[i];
        if c == '\n' {
            r.push(' ');
        } else {
            r.push(c);
        }
        i += 1;
    }
    assert(r@ =~= preview(s@, n as nat));
    r
}

// ---------------------------------------------------------------------- laws

/// White space in ASCII is the space and the five controls from the tab to the
/// carriage return; no letter, no digit and no mark of punctuation is.
pub proof fn law_white_space_in_ascii(c: char)
    requires
        (c as u32) < 128,
    ensures
        white_space(c) <==> c == ' ' || c == '\t' || c == '\n' || c == '\r' || c as u32 == 11 || c
            as u32 == 12,
{
}

/// Beyond ASCII white space are the next line, the no-break spaces, the separators
/// of lines and paragraphs, and the spaces of typesetting.
pub proof fn law_white_space_beyond_ascii(c: char)
    requires
        (c as u32) >= 128,
    ensures
        white_space(c) <==> (c as u32 == 0x85 || c as u32 == 0xa0 || c as u32 == 0x1680 || 0x2000
            <= c as u32 <= 0x200a || c as u32 == 0x2028 || c as u32 == 0x2029 || c as u32 == 0x202f
            || c as u32 == 0x205f || c as u32 == 0x3000),
{
}

proof fn lemma_trim_start(s: Seq<char>) -> (a: int)
    ensures
        0 <= a <= s.len(),
        trim_start(s) == s.skip(a),
        forall|i: int| 0 <= i < a ==> white_space(#[trigger] s[i]),
        a < s.len() ==> !white_space(s[a]),
    decreases s.len(),
{
    if s.len() > 0 && white_space(s[0]) {
        let rest = s.drop_first();
        let b = lemma_trim_start(rest);
        assert(rest.skip(b) =~= s.skip(b + 1));
        assert forall|i: int| 0 <= i < b + 1 implies white_space(#[trigger] s[i]) by {
            if i > 0 {
                assert(rest[i - 1] == s[i]);
            }
        }
        if b < rest.len() {
            assert(rest[b] == s[b + 1]);
        }
        b + 1
    } else {
        assert(s.skip(0) =~= s);
        0
    }
}

/// Trimming the end takes off all the white space there and nothing else.
pub proof fn law_trimming_the_end(s: Seq<char>) -> (b: int)
    ensures
        0 <= b <= s.len(),
        trim_end(s) == s.take(b),
        forall|i: int| b <= i < s.len() ==> white_space(#[trigger] s[i]),
        b > 0 ==> !white_space(s[b - 1]),
    decreases s.len(),
{
    if s.len() > 0 && white_space(s.last()) {
        let rest = s.drop_last();
        let b = law_trimming_the_end(rest);
        assert(rest.take(b) =~= s.take(b));
        assert forall|i: int| b <= i < s.len() implies white_space(#[trigger] s[i]) by {
            if i < rest.len() {
                assert(rest[i] == s[i]);
            }
        }
        if b > 0 {
            assert(rest[b - 1] == s[b - 1]);
        }
        b
    } else {
        assert(s.take(s.len() as int) =~= s);
        s.len() as int
    }
}

/// Trimming takes off all the white space at either end and nothing else.
pub proof fn law_trimming(s: Seq<char>) -> (r: (int, int))
    ensures
        0 <= r.0 <= r.1 <= s.len(),
        trim(s) == s.subrange(r.0, r.1),
        forall|i: int| 0 <= i < r.0 ==> white_space(#[trigger] s[i]),
        forall|i: int| r.1 <= i < s.len() ==> white_space(#[trigger] s[i]),
        r.0 < r.1 ==> !white_space(s[r.0]) && !white_space(s[r.1 - 1]),
{
    let a = lemma_trim_start(s);
    let t = trim_start(s);
    let b = law_trimming_the_end(t);
    assert(t.take(b) =~= s.subrange(a, a + b));
    assert forall|i: int| a + b <= i < s.len() implies white_space(#[trigger] s[i]) by {
        assert(t[i - a] == s[i]);
    }
    if b > 0 {
        assert(t[b - 1] == s[a + b - 1]);
        if white_space(s[a]) {
            assert(a < s.len());
        }
    }
    (a, a + b)
}

/// A search gives the first place at which the pattern stands, and none only where
/// it stands nowhere.
pub proof fn law_a_search_gives_the_first_place(s: Seq<char>, pat: Seq<char>)
    ensures
        match find(s, pat, 0) {
            Some(i) => {
                &&& 0 <= i && i + pat.len() <= s.len()
                &&& forall|k: int| 0 <= k < pat.len() ==> s[i + k] == #[trigger] pat[k]
                &&& forall|j: int|
                    0 <= j < i ==> #[trigger] s.subrange(j, j + pat.len()) != pat
            },
            None => forall|j: int|
                0 <= j && j + pat.len() <= s.len() ==> #[trigger] s.subrange(j, j + pat.len())
                    != pat,
        },
{
    lemma_find(s, pat, 0);
    match find(s, pat, 0) {
        Some(i) => {
            assert forall|k: int| 0 <= k < pat.len() implies s[i + k] == #[trigger] pat[k] by {
                assert(s.subrange(i, i + pat.len())[k] == s[i + k]);
            }
            assert forall|j: int| 0 <= j < i implies #[trigger] s.subrange(j, j + pat.len())
                != pat by {
                assert(!occurs_at(s, pat, j));
            }
        },
        None => {
            assert forall|j: int| 0 <= j && j + pat.len() <= s.len() implies #[trigger] s.subrange(
                j,
                j + pat.len(),
            ) != pat by {
                assert(!occurs_at(s, pat, j));
            }
        },
    }
}

proof fn lemma_find_char(s: Seq<char>, c: char, i: int)
    requires
        0 <= i < s.len(),
        s[i] == c,
        forall|k: int| 0 <= k < i ==> (#[trigger] s[k]) != c,
    ensures
        find(s, seq![c], 0) == Some(i),
{
    lemma_find(s, seq![c], 0);
    assert(s.subrange(i, i + 1) =~= seq![c]);
    assert(occurs_at(s, seq![c], i));
    let j = find(s, seq![c], 0)->0;
    assert(s.subrange(j, j + 1)[0] == s[j]);
}

proof fn lemma_find_no_char(s: Seq<char>, c: char)
    requires
        !s.contains(c),
    ensures
        find(s, seq![c], 0) is None,
{
    lemma_find(s, seq![c], 0);
    if find(s, seq![c], 0) is Some {
        let j = find(s, seq![c], 0)->0;
        assert(s.subrange(j, j + 1)[0] == s[j]);
        assert(s.contains(s[j]));
    }
}

/// A text is cut at the first of the characters: the two parts, with it between
/// them, are the text, and the first part does not hold it.
pub proof fn law_a_text_is_cut_at_the_first(a: Seq<char>, c: char, b: Seq<char>)
    requires
        !a.contains(c),
    ensures
        cut(a + seq![c] + b, c) == Some((a, b)),
        cut(a, c) is None,
{
    let s = a + seq![c] + b;
    assert forall|k: int| 0 <= k < a.len() implies (#[trigger] s[k]) != c by {
        assert(a.contains(a[k]));
    }
    lemma_find_char(s, c, a.len() as int);
    lemma_find_no_char(a, c);
    assert(s.take(a.len() as int) =~= a);
    assert(s.skip(a.len() as int + 1) =~= b);
}

/// A text is cut at the last of the characters.
pub proof fn law_a_text_is_cut_at_the_last(a: Seq<char>, c: char, b: Seq<char>)
    requires
        !b.contains(c),
    ensures
        cut_last(a + seq![c] + b, c) == Some((a, b)),
        cut_last(b, c) is None,
{
    let s = a + seq![c] + b;
    lemma_last_position(s, c, a.len() as int);
    lemma_no_last_position(b, c);
    assert(s.take(a.len() as int) =~= a);
    assert(s.skip(a.len() as int + 1) =~= b);
}

proof fn lemma_last_position(s: Seq<char>, c: char, i: int)
    requires
        0 <= i < s.len(),
        s[i] == c,
        forall|k: int| i < k < s.len() ==> (#[trigger] s[k]) != c,
    ensures
        last_position(s, c) == Some(i),
    decreases s.len(),
{
    if i < s.len() - 1 {
        lemma_last_position(s.drop_last(), c, i);
    }
}

proof fn lemma_no_last_position(s: Seq<char>, c: char)
    requires
        !s.contains(c),
    ensures
        last_position(s, c) is None,
    decreases s.len(),
{
    if s.len() > 0 {
        assert(s.contains(s[s.len() - 1]));
        assert forall|x: char| s.drop_last().contains(x) implies s.contains(x) by {
            let k = choose|k: int| 0 <= k < s.drop_last().len() && s.drop_last()[k] == x;
            assert(s[k] == x);
        }
        lemma_no_last_position(s.drop_last(), c);
    }
}

/// A prefix is taken off exactly where the text begins with it.
pub proof fn law_a_prefix_is_taken_off(p: Seq<char>, rest: Seq<char>, s: Seq<char>)
    ensures
        stripped(p + rest, p) == Some(rest),
        stripped(s, p) is Some ==> s == p + stripped(s, p)->0,
{
    assert((p + rest).subrange(0, p.len() as int) =~= p);
    assert((p + rest).skip(p.len() as int) =~= rest);
    if stripped(s, p) is Some {
        assert(s =~= s.subrange(0, p.len() as int) + s.skip(p.len() as int));
    }
}

/// A text is read line by line: a line feed ends a line, with a carriage return
/// right before it or without; what follows is read on; a last line needs no end.
pub proof fn law_lines_end_at_line_feeds(line: Seq<char>, rest: Seq<char>)
    requires
        !line.contains('\n'),
    ensures
        lines(Seq::<char>::empty()) == Seq::<Seq<char>>::empty(),
        line.len() > 0 ==> lines(line) == seq![line],
        line.len() == 0 || line.last() != '\r' ==> lines(line + seq!['\n'] + rest) == seq![line]
            + lines(rest),
        lines(line + seq!['\r', '\n'] + rest) == seq![line] + lines(rest),
{
    lemma_find_no_char(line, '\n');
    let s = line + seq!['\n'] + rest;
    assert forall|k: int| 0 <= k < line.len() implies (#[trigger] line[k]) != '\n' by {
        assert(line.contains(line[k]));
    }
    lemma_find_char(s, '\n', line.len() as int);
    assert(s.take(line.len() as int) =~= line);
    assert(s.skip(line.len() as int + 1) =~= rest);
    let t = line + seq!['\r', '\n'] + rest;
    lemma_find_char(t, '\n', line.len() as int + 1);
    assert(t.take(line.len() as int + 1) =~= line.push('\r'));
    assert(without_return(line.push('\r')) =~= line);
    assert(t.skip(line.len() as int + 2) =~= rest);
}

/// Joining puts the separator between neighbours and nowhere else.
pub proof fn law_joining(parts: Seq<Seq<char>>, sep: Seq<char>, x: Seq<char>)
    ensures
        joined(Seq::<Seq<char>>::empty(), sep) == Seq::<char>::empty(),
        joined(seq![x], sep) == x,
        parts.len() > 0 ==> joined(parts.push(x), sep) == joined(parts, sep) + sep + x,
{
    assert(parts.push(x).drop_last() =~= parts);
}

/// Texts said one behind the other stand one behind the other.
pub proof fn law_saying(parts: Seq<Seq<char>>, x: Seq<char>)
    ensures
        flat(Seq::<Seq<char>>::empty()) == Seq::<char>::empty(),
        flat(parts.push(x)) == flat(parts) + x,
{
    assert(parts.push(x).drop_last() =~= parts);
}

/// The views of texts are theirs, one for one.
pub proof fn law_views_of_texts(v: Seq<String>, i: int)
    requires
        0 <= i < v.len(),
    ensures
        texts(v).len() == v.len(),
        texts(v)[i] == v[i]@,
{
}

/// Padding keeps the text, fills up with spaces to the width, and cuts nothing off.
pub proof fn law_padding(s: Seq<char>, width: nat)
    ensures
        padded(s, width).len() == if s.len() < width {
            width
        } else {
            s.len()
        },
        padded(s, width).take(s.len() as int) == s,
        forall|i: int| s.len() <= i < padded(s, width).len() ==> #[trigger] padded(s, width)[i]
            == ' ',
{
    assert(padded(s, width).take(s.len() as int) =~= s);
}

/// A number below ten is its digit; one more place is one more digit at the end.
pub proof fn law_decimal_places(n: nat, d: nat)
    requires
        d < 10,
    ensures
        decimal(d).len() == 1,
        decimal(d)[0] as u32 == 48 + d,
        n > 0 ==> decimal(n * 10 + d) == decimal(n) + decimal(d),
{
    if n > 0 {
        let m = n * 10 + d;
        assert(m / 10 == n && m % 10 == d) by (nonlinear_arith)
            requires
                m == n * 10 + d,
                d < 10,
        ;
        assert(decimal(n).push(digit(d)) =~= decimal(n) + decimal(d));
    }
}

proof fn lemma_digits_only(s: Seq<char>, i: int)
    requires
        0 <= i < s.len(),
        digits_value(s) is Some,
    ensures
        is_digit(s[i]),
    decreases s.len(),
{
    if i < s.len() - 1 {
        lemma_digits_only(s.drop_last(), i);
    }
}

/// An integer is read back from its decimal form, with a plus sign too; a text
/// with anything but digits behind an optional sign is no integer.
pub proof fn law_integers_are_read_back(n: int, s: Seq<char>, i: int)
    ensures
        i64::MIN <= n <= i64::MAX ==> i64_value(int_text(n)) == Some(n as i64),
        0 <= n <= i64::MAX ==> i64_value(seq!['+'] + int_text(n)) == Some(n as i64),
        n > i64::MAX || n < i64::MIN ==> i64_value(int_text(n)) is None,
        0 <= n <= u64::MAX ==> unsigned_value(int_text(n), u64::MAX) == Some(n as u64),
        n < 0 ==> unsigned_value(int_text(n), u64::MAX) is None,
        1 <= i < s.len() && !is_digit(s[i]) ==> i64_value(s) is None && unsigned_value(s, u64::MAX)
            is None,
        s.len() == 0 ==> i64_value(s) is None && unsigned_value(s, u64::MAX) is None,
{
    let m = if n < 0 {
        (-n) as nat
    } else {
        n as nat
    };
    let d = decimal(m);
    lemma_decimal_digits(m);
    lemma_decimal_round_trip(m);
    assert(is_digit(d[0]));
    assert((seq!['-'] + d).skip(1) =~= d);
    assert((seq!['+'] + d).skip(1) =~= d);
    if n < 0 {
        let t = seq!['-'] + d;
        assert(t[0] == '-');
        if digits_value(t) is Some {
            lemma_digits_only(t, 0);
        }
    }
    if 1 <= i < s.len() && !is_digit(s[i]) {
        if digits_value(s) is Some {
            lemma_digits_only(s, i);
        }
        if digits_value(s.skip(1)) is Some {
            assert(s.skip(1)[i - 1] == s[i]);
            lemma_digits_only(s.skip(1), i - 1);
        }
    }
}

/// The tail of a text is its end: as much of it as was asked for, or all of it.
pub proof fn law_a_tail_is_the_end(s: Seq<char>, n: nat)
    ensures
        last_chars(s, n).len() == if s.len() < n {
            s.len()
        } else {
            n
        },
        forall|i: int|
            0 <= i < last_chars(s, n).len() ==> #[trigger] last_chars(s, n)[i] == s[s.len()
                - last_chars(s, n).len() + i],
{
}

/// A name is made safe character by character: ASCII letters and digits and the
/// hyphen stay, every other ASCII character is an underscore.
pub proof fn law_a_safe_name_keeps_letters_digits_and_hyphens(s: Seq<char>, i: int)
    requires
        0 <= i < s.len(),
    ensures
        safe_name(s).len() == s.len(),
        safe_name(s)[i] == s[i] || safe_name(s)[i] == '_',
        ('a' <= s[i] <= 'z') || ('A' <= s[i] <= 'Z') || ('0' <= s[i] <= '9') || s[i] == '-'
            ==> safe_name(s)[i] == s[i],
        (s[i] as int) < 128 && !('a' <= s[i] <= 'z') && !('A' <= s[i] <= 'Z') && !('0' <= s[i]
            <= '9') && s[i] != '-' ==> safe_name(s)[i] == '_',
        (s[i] as int) >= 128 ==> (safe_name(s)[i] == s[i] <==> alphanumeric_beyond_ascii(s[i])),
{
}

/// Of two texts the one with the lower character at their first difference comes
/// first; where they do not differ, the shorter.
pub proof fn law_texts_are_ordered_by_their_first_difference(
    p: Seq<char>,
    a: Seq<char>,
    b: Seq<char>,
)
    requires
        a.len() > 0 && b.len() > 0 ==> a[0] != b[0],
    ensures
        lex_lt(p + a, p + b) <==> b.len() > 0 && (a.len() == 0 || (a[0] as int) < (b[0] as int)),
    decreases p.len(),
{
    if p.len() == 0 {
        assert(p + a =~= a);
        assert(p + b =~= b);
    } else {
        assert((p + a).drop_first() =~= p.drop_first() + a);
        assert((p + b).drop_first() =~= p.drop_first() + b);
        law_texts_are_ordered_by_their_first_difference(p.drop_first(), a, b);
    }
}

/// Words are what stands between white space.
pub proof fn law_words_stand_between_white_space(space: char, word: Seq<char>, rest: Seq<char>)
    requires
        white_space(space),
        word.len() > 0,
        forall|i: int| 0 <= i < word.len() ==> !white_space(#[trigger] word[i]),
    ensures
        words(Seq::<char>::empty()) == Seq::<Seq<char>>::empty(),
        words(seq![space] + rest) == words(rest),
        words(word) == seq![word],
        words(word + seq![space] + rest) == seq![word] + words(rest),
{
    assert((seq![space] + rest).drop_first() =~= rest);
    lemma_word_end_is(word, word.len() as int);
    assert(word.take(word.len() as int) =~= word);
    assert(word.skip(word.len() as int) =~= Seq::empty());
    assert(!white_space(word[0]));
    assert(words(Seq::<char>::empty()) =~= Seq::<Seq<char>>::empty());
    assert(words(word) =~= seq![word]);
    let s = word + seq![space] + rest;
    assert forall|i: int| 0 <= i < word.len() implies !white_space(#[trigger] s[i]) by {
        assert(s[i] == word[i]);
    }
    lemma_word_end_is(s, word.len() as int);
    assert(s.take(word.len() as int) =~= word);
    let t = s.skip(word.len() as int);
    assert(t =~= seq![space] + rest);
    assert(t.drop_first() =~= rest);
    assert(words(t) == words(rest));
    assert(s[0] == word[0]);
    assert(words(s) == seq![s.take(word_end(s))] + words(s.skip(word_end(s))));
}

/// A preview is the beginning of a text, on one line.
pub proof fn law_a_preview_is_the_beginning_on_one_line(s: Seq<char>, n: nat)
    ensures
        preview(s, n).len() == if s.len() < n {
            s.len()
        } else {
            n
        },
        forall|i: int|
            0 <= i < preview(s, n).len() ==> #[trigger] preview(s, n)[i] == if s[i] == '\n' {
                ' '
            } else {
                s[i]
            },
{
}

/// The filled lines of a text are its lines but for the blank ones, in their order:
/// a line that is not blank comes first, a blank one is passed over.
pub proof fn law_only_blank_lines_are_left_out(line: Seq<char>, rest: Seq<char>)
    requires
        !line.contains('\n'),
        line.len() == 0 || line.last() != '\r',
    ensures
        filled_lines(Seq::<char>::empty()) == Seq::<Seq<char>>::empty(),
        (forall|i: int| 0 <= i < line.len() ==> white_space(#[trigger] line[i])) ==> filled_lines(
            line + seq!['\n'] + rest,
        ) == filled_lines(rest),
        (exists|i: int| 0 <= i < line.len() && !white_space(#[trigger] line[i])) ==> filled_lines(
            line + seq!['\n'] + rest,
        ) == seq![line] + filled_lines(rest),
        (exists|i: int| 0 <= i < line.len() && !white_space(#[trigger] line[i])) ==> filled_lines(
            line,
        ) == seq![line],
        filled_lines(line + seq!['\r', '\n'] + rest) == filled_lines(line + seq!['\n'] + rest),
{
    law_lines_end_at_line_feeds(line, rest);
    reveal(Seq::filter);
    let keep = |l: Seq<char>| !blank(l);
    let one = seq![line];
    assert(one.drop_last() =~= Seq::<Seq<char>>::empty());
    assert(Seq::<Seq<char>>::empty().filter(keep) =~= Seq::<Seq<char>>::empty());
    assert(one.filter(keep) =~= if blank(line) {
        Seq::<Seq<char>>::empty()
    } else {
        one
    });
    Seq::filter_distributes_over_add(one, lines(rest), keep);
    assert(Seq::<Seq<char>>::empty() + filled_lines(rest) =~= filled_lines(rest));
}

/// A suffix is taken off as often as it stands at the end, and nothing else is.
pub proof fn law_suffixes_are_taken_off(s: Seq<char>, p: Seq<char>)
    requires
        p.len() > 0,
    ensures
        without_suffixes(s + p, p) == without_suffixes(s, p),
        s.len() < p.len() || s.skip(s.len() - p.len()) != p ==> without_suffixes(s, p) == s,
{
    let t = s + p;
    assert(t.subrange(s.len() as int, t.len() as int) =~= p);
    assert(t.take(s.len() as int) =~= s);
    if s.len() >= p.len() {
        assert(s.subrange(s.len() - p.len(), s.len() as int) =~= s.skip(s.len() - p.len()));
    }
}

/// A prefix is taken off as often as it stands at the beginning, and nothing else is.
pub proof fn law_prefixes_are_taken_off(s: Seq<char>, p: Seq<char>)
    requires
        p.len() > 0,
    ensures
        without_prefixes(p + s, p) == without_prefixes(s, p),
        s.len() < p.len() || s.take(p.len() as int) != p ==> without_prefixes(s, p) == s,
{
    let t = p + s;
    assert(t.subrange(0, p.len() as int) =~= p);
    assert(t.skip(p.len() as int) =~= s);
    if s.len() >= p.len() {
        assert(s.subrange(0, p.len() as int) =~= s.take(p.len() as int));
    }
}

/// A negative number has a minus sign before its digits, any other none.
pub proof fn law_a_sign_stands_before_the_digits(n: nat)
    ensures
        n > 0 ==> int_text(-(n as int)) == seq!['-'] + decimal(n),
        int_text(n as int) == decimal(n),
{
}

/// An optional text is told as it is.
pub proof fn law_optional_texts_are_told_as_they_are(s: String, t: String)
    ensures
        opt_text(Some(s)) == Some(s@),
        opt_text(None::<String>) is None,
        opt_pair(Some((s, t))) == Some((s@, t@)),
        opt_pair(None::<(String, String)>) is None,
{
}

/// The texts of literals are theirs, one for one.
pub proof fn law_views_of_literals(v: Seq<&str>, i: int)
    requires
        0 <= i < v.len(),
    ensures
        literals(v).len() == v.len(),
        literals(v)[i] == v[i]@,
{
}

} // verus!

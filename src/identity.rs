use vstd::prelude::*;

verus! {

/// Unicode `White_Space` characters, the set that `char::is_whitespace` tests for.
pub open spec fn is_ws(c: char) -> bool {
    ('\u{9}' <= c && c <= '\u{d}') || c == ' ' || c == '\u{85}' || c == '\u{a0}' || c == '\u{1680}'
        || ('\u{2000}' <= c && c <= '\u{200a}') || c == '\u{2028}' || c == '\u{2029}'
        || c == '\u{202f}' || c == '\u{205f}' || c == '\u{3000}'
}

/// Whether `c` separates the words of a name.
pub fn is_space(c: char) -> (r: bool)
    ensures
        r == is_ws(c),
{
    ('\u{9}' <= c && c <= '\u{d}') || c == ' ' || c == '\u{85}' || c == '\u{a0}' || c == '\u{1680}'
        || ('\u{2000}' <= c && c <= '\u{200a}') || c == '\u{2028}' || c == '\u{2029}'
        || c == '\u{202f}' || c == '\u{205f}' || c == '\u{3000}'
}


/// The words of `s` found so far, and the word being read at its end.
pub open spec fn split_acc(s: Seq<char>) -> (Seq<Seq<char>>, Seq<char>)
    decreases s.len(),
{
    if s.len() == 0 {
        (seq![], seq![])
    } else {
        let prev = split_acc(s.drop_last());
        let c = s.last();
        if is_ws(c) {
            if prev.1.len() > 0 {
                (prev.0.push(prev.1), seq![])
            } else {
                prev
            }
        } else {
            (prev.0, prev.1.push(c))
        }
    }
}

/// The maximal runs of non-whitespace characters of `s`, in order.
pub open spec fn words(s: Seq<char>) -> Seq<Seq<char>> {
    let acc = split_acc(s);
    if acc.1.len() > 0 {
        acc.0.push(acc.1)
    } else {
        acc.0
    }
}

/// Index of the first `c` in `t` at or after `i`, or `t.len()` if there is none.
pub open spec fn find_from(t: Seq<char>, c: char, i: int) -> int
    decreases t.len() - i,
{
    if i < 0 || i >= t.len() {
        t.len() as int
    } else if t[i] == c {
        i
    } else {
        find_from(t, c, i + 1)
    }
}

proof fn lemma_find_from_range(t: Seq<char>, c: char, i: int)
    requires
        0 <= i <= t.len(),
    ensures
        i <= find_from(t, c, i) <= t.len(),
    decreases t.len() - i,
{
    if i < t.len() && t[i] != c {
        lemma_find_from_range(t, c, i + 1);
    }
}

pub open spec fn has_comma(t: Seq<char>) -> bool {
    find_from(t, ',', 0) < t.len()
}

/// The key of a lowercased name that holds no `@`: "first last", where first and
/// last are its first and last words. A first word with a comma marks the form
/// "Last, First ...": the part before the comma is the last name, and the part
/// after it (up to any further comma) the first name, or the next word when that
/// part is empty.
pub open spec fn name_key(lowered: Seq<char>) -> Seq<char> {
    let w = words(lowered);
    let first = if w.len() > 0 { w[0] } else { seq![] };
    if has_comma(first) {
        let p = find_from(first, ',', 0);
        let q = find_from(first, ',', p + 1);
        let given = first.subrange(p + 1, q);
        let given = if given.len() > 0 { given } else if w.len() > 1 { w[1] } else { seq![] };
        given + seq![' '] + first.subrange(0, p)
    } else {
        let last = if w.len() > 1 { w.last() } else { seq![] };
        first + seq![' '] + last
    }
}

/// The identity of an author name, given the name and its lowercase form: a name
/// that holds `@` is its own identity, any other is keyed by its lowercase words.
pub open spec fn identity_from(raw: Seq<char>, lowered: Seq<char>) -> Seq<char> {
    if raw.contains('@') {
        raw
    } else {
        name_key(lowered)
    }
}

/// What `str::to_lowercase` returns for the characters of a string.
pub uninterp spec fn lower_of(s: Seq<char>) -> Seq<char>;

/// The identity under which a commit by the author named `raw` is counted.
pub open spec fn identity_of(raw: Seq<char>) -> Seq<char> {
    identity_from(raw, lower_of(raw))
}

/// Relies on `str::to_lowercase`: the lowercase mapping depends on the characters alone.
#[verifier::external_body]
fn lowercase(s: &str) -> (r: String)
    ensures
        r@ == lower_of(s@),
{
    s.to_lowercase()
}

/// Each of `r` gives the start and end in `s` of the word of `ws` at the same place.
spec fn bounds_of(s: Seq<char>, r: Seq<(usize, usize)>, ws: Seq<Seq<char>>) -> bool {
    &&& r.len() == ws.len()
    &&& forall|j: int|
        #![trigger r[j]]
        0 <= j < r.len() ==> {
            &&& r[j].0 <= r[j].1 <= s.len()
            &&& ws[j] == s.subrange(r[j].0 as int, r[j].1 as int)
        }
}

proof fn lemma_bounds_push(s: Seq<char>, r: Seq<(usize, usize)>, ws: Seq<Seq<char>>, a: usize, b: usize)
    requires
        bounds_of(s, r, ws),
        a <= b <= s.len(),
    ensures
        bounds_of(s, r.push((a, b)), ws.push(s.subrange(a as int, b as int))),
{
    let r2 = r.push((a, b));
    let ws2 = ws.push(s.subrange(a as int, b as int));
    assert forall|j: int| #![trigger r2[j]] 0 <= j < r2.len() implies {
        &&& r2[j].0 <= r2[j].1 <= s.len()
        &&& ws2[j] == s.subrange(r2[j].0 as int, r2[j].1 as int)
    } by {
        if j < r.len() {
            assert(r2[j] == r[j]);
            assert(ws2[j] == ws[j]);
        }
    }
}

/// Start and end of each word of `s`.
fn word_bounds(s: &str) -> (r: Vec<(usize, usize)>)
    ensures
        bounds_of(s@, r@, words(s@)),
{
    let n = s.unicode_len();
    let mut r: Vec<(usize, usize)> = Vec::new();
    let mut start: usize = 0;
    let mut i: usize = 0;
    let ghost mut ws: Seq<Seq<char>> = seq![];
    assert(s@.take(0) =~= seq![]);
    while i < n
        invariant
            n == s@.len(),
            start <= i <= n,
            ws == split_acc(s@.take(i as int)).0,
            split_acc(s@.take(i as int)).1 == s@.subrange(start as int, i as int),
            bounds_of(s@, r@, ws),
        decreases n - i,
    {
        let c = s.get_char(i);
        assert(s@.take(i + 1).drop_last() =~= s@.take(i as int));
        assert(s@.take(i + 1).last() == c);
        if is_space(c) {
            if start < i {
                proof {
                    lemma_bounds_push(s@, r@, ws, start, i);
                    ws = ws.push(s@.subrange(start as int, i as int));
                }
                r.push((start, i));
            }
            start = i + 1;
            assert(s@.subrange(start as int, i + 1) =~= seq![]);
        } else {
            assert(s@.subrange(start as int, i + 1) =~= s@.subrange(start as int, i as int).push(c));
        }
        i = i + 1;
    }
    assert(s@.take(n as int) =~= s@);
    if start < n {
        proof {
            lemma_bounds_push(s@, r@, ws, start, n);
            ws = ws.push(s@.subrange(start as int, n as int));
        }
        r.push((start, n));
    }
    assert(ws =~= words(s@));
    r
}

/// Index of the first `c` in `t` at or after `from`, or the length of `t`.
fn find_char(t: &str, c: char, from: usize) -> (r: usize)
    requires
        from <= t@.len(),
    ensures
        r == find_from(t@, c, from as int),
{
    let n = t.unicode_len();
    let mut i = from;
    while i < n && t.get_char(i) != c
        invariant
            n == t@.len(),
            from <= i <= n,
            find_from(t@, c, i as int) == find_from(t@, c, from as int),
        decreases n - i,
    {
        i = i + 1;
    }
    i
}

/// Whether `s` holds the character `c`.
fn holds_char(s: &str, c: char) -> (r: bool)
    ensures
        r == s@.contains(c),
{
    let n = s.unicode_len();
    let mut i: usize = 0;
    while i < n
        invariant
            n == s@.len(),
            i <= n,
            forall|j: int| 0 <= j < i ==> s@[j] != c,
        decreases n - i,
    {
        if s.get_char(i) == c {
            return true;
        }
        i = i + 1;
    }
    false
}

/// Joins `given` and `surname` with one space.
fn join_pair(given: &str, surname: &str) -> (r: String)
    ensures
        r@ == given@ + seq![' '] + surname@,
{
    broadcast use vstd::string::to_string_from_display_ensures_for_str;

    let mut r = given.to_string();
    r.append(" ");
    proof {
        reveal_strlit(" ");
    }
    r.append(surname);
    r
}

/// The identity of the author named `raw`, given `lowered`, the lowercase form of `raw`.
pub fn identity_from_lowered(raw: &str, lowered: &str) -> (r: String)
    ensures
        r@ == identity_from(raw@, lowered@),
{
    broadcast use vstd::string::to_string_from_display_ensures_for_str;

    if holds_char(raw, '@') {
        return raw.to_string();
    }
    let b = word_bounds(lowered);
    let ghost w = words(lowered@);
    let empty = lowered.substring_char(0, 0);
    assert(empty@ =~= seq![]);
    let first = if b.len() > 0 {
        lowered.substring_char(b[0].0, b[0].1)
    } else {
        empty
    };
    let p = find_char(first, ',', 0);
    if p < first.unicode_len() {
        let q = find_char(first, ',', p + 1);
        proof {
            lemma_find_from_range(first@, ',', p + 1);
        }
        let mut given = first.substring_char(p + 1, q);
        if given.unicode_len() == 0 && b.len() > 1 {
            given = lowered.substring_char(b[1].0, b[1].1);
        }
        let surname = first.substring_char(0, p);
        join_pair(given, surname)
    } else {
        let last = if b.len() > 1 {
            lowered.substring_char(b[b.len() - 1].0, b[b.len() - 1].1)
        } else {
            empty
        };
        join_pair(first, last)
    }
}

/// The identity under which a commit by the author named `raw` is counted.
pub fn normalize_identity(raw: &str) -> (r: String)
    ensures
        r@ == identity_of(raw@),
{
    let lowered = lowercase(raw);
    identity_from_lowered(raw, lowered.as_str())
}

} // verus!

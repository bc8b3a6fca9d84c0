//! Text: splitting paths, comparing names, and the order of strings.

use vstd::prelude::*;

verus! {

/// The characters of `s`.
pub fn chars_of(s: &str) -> (r: Vec<char>)
    ensures
        r@ == s@,
{
    let mut r: Vec<char> = Vec::new();
    for c in it: s.chars()
        invariant
            r@ == it.seq().take(it.index()),
            it.seq() == s@,
    {
        r.push(c);
    }
    r
}

/// Whether byte string `a` comes before `b` in a dictionary.
pub open spec fn before(a: Seq<u8>, b: Seq<u8>) -> bool
    decreases a.len(),
{
    if b.len() == 0 {
        false
    } else if a.len() == 0 {
        true
    } else if a[0] == b[0] {
        before(a.skip(1), b.skip(1))
    } else {
        a[0] < b[0]
    }
}

/// Whether string `a` sorts before `b`: the order of their UTF-8 bytes.
pub open spec fn sorts_before(a: Seq<char>, b: Seq<char>) -> bool {
    before(vstd::utf8::encode_utf8(a), vstd::utf8::encode_utf8(b))
}

/// How two things stand to each other in an order.
#[derive(Clone, Copy, PartialEq, Eq, Debug, Structural)]
pub enum Relation {
    Before,
    Same,
    After,
}

/// Compares two strings by their UTF-8 bytes.
pub fn relate(a: &str, b: &str) -> (r: Relation)
    ensures
        r == Relation::Before <==> sorts_before(a@, b@),
        r == Relation::Same <==> a@ == b@,
        r == Relation::After <==> sorts_before(b@, a@),
{
    let x = a.as_bytes();
    let y = b.as_bytes();
    let mut i: usize = 0;
    proof {
        assert(x@.skip(0) =~= x@);
        assert(y@.skip(0) =~= y@);
        lemma_encode_injective(a@, b@);
    }
    while i < x.len() && i < y.len() && x[i] == y[i]
        invariant
            i <= x@.len(),
            i <= y@.len(),
            forall|k: int| 0 <= k < i ==> x@[k] == y@[k],
            before(x@, y@) == before(x@.skip(i as int), y@.skip(i as int)),
            before(y@, x@) == before(y@.skip(i as int), x@.skip(i as int)),
        decreases x@.len() - i,
    {
        proof {
            assert(x@.skip(i as int).skip(1) =~= x@.skip(i + 1));
            assert(y@.skip(i as int).skip(1) =~= y@.skip(i + 1));
        }
        i = i + 1;
    }
    if i == x.len() && i == y.len() {
        assert(x@ =~= y@);
        Relation::Same
    } else if i == y.len() {
        Relation::After
    } else if i == x.len() {
        Relation::Before
    } else if x[i] < y[i] {
        Relation::Before
    } else {
        Relation::After
    }
}

proof fn lemma_encode_injective(a: Seq<char>, b: Seq<char>)
    ensures
        vstd::utf8::encode_utf8(a) == vstd::utf8::encode_utf8(b) ==> a == b,
{
    broadcast use vstd::utf8::encode_utf8_decode_utf8;

    assert(vstd::utf8::decode_utf8(vstd::utf8::encode_utf8(a)) == a);
    assert(vstd::utf8::decode_utf8(vstd::utf8::encode_utf8(b)) == b);
}

proof fn lemma_before_irreflexive(a: Seq<u8>)
    ensures
        !before(a, a),
    decreases a.len(),
{
    if a.len() > 0 {
        lemma_before_irreflexive(a.skip(1));
    }
}

proof fn lemma_before_transitive(a: Seq<u8>, b: Seq<u8>, c: Seq<u8>)
    requires
        before(a, b),
        before(b, c),
    ensures
        before(a, c),
    decreases a.len(),
{
    if a.len() > 0 && b.len() > 0 && c.len() > 0 && a[0] == b[0] && b[0] == c[0] {
        lemma_before_transitive(a.skip(1), b.skip(1), c.skip(1));
    }
}

proof fn lemma_before_total(a: Seq<u8>, b: Seq<u8>)
    ensures
        before(a, b) || a == b || before(b, a),
    decreases a.len(),
{
    if a.len() > 0 && b.len() > 0 && a[0] == b[0] {
        lemma_before_total(a.skip(1), b.skip(1));
        if a.skip(1) == b.skip(1) {
            assert(a =~= seq![a[0]] + a.skip(1));
            assert(b =~= seq![b[0]] + b.skip(1));
        }
    } else if a.len() == 0 && b.len() == 0 {
        assert(a =~= b);
    }
}

/// The order of strings is strict and total: no string sorts before itself, the order
/// passes on from string to string, and of two different strings one sorts first.
pub proof fn sorts_before_is_total_order(a: Seq<char>, b: Seq<char>, c: Seq<char>)
    ensures
        !sorts_before(a, a),
        sorts_before(a, b) && sorts_before(b, c) ==> sorts_before(a, c),
        sorts_before(a, b) || a == b || sorts_before(b, a),
        !(sorts_before(a, b) && sorts_before(b, a)),
{
    let x = vstd::utf8::encode_utf8(a);
    let y = vstd::utf8::encode_utf8(b);
    let z = vstd::utf8::encode_utf8(c);
    lemma_before_irreflexive(x);
    if before(x, y) && before(y, z) {
        lemma_before_transitive(x, y, z);
    }
    lemma_before_total(x, y);
    lemma_encode_injective(a, b);
    if before(x, y) && before(y, x) {
        lemma_before_transitive(x, y, x);
    }
}

proof fn lemma_before_by_first_difference(a: Seq<u8>, b: Seq<u8>, i: int)
    requires
        0 <= i <= a.len(),
        i < b.len(),
        a.take(i) == b.take(i),
        i == a.len() || a[i] < b[i],
    ensures
        before(a, b),
    decreases i,
{
    if i > 0 {
        assert(a[0] == a.take(i)[0] && b[0] == b.take(i)[0]);
        assert(a.skip(1).take(i - 1) =~= a.take(i).skip(1));
        assert(b.skip(1).take(i - 1) =~= b.take(i).skip(1));
        lemma_before_by_first_difference(a.skip(1), b.skip(1), i - 1);
    }
}

/// The first byte in which the UTF-8 bytes of two strings differ decides which sorts first: that
/// with the lower byte, or that which ends there.
pub proof fn first_difference_decides(a: Seq<char>, b: Seq<char>, i: int)
    requires
        0 <= i <= vstd::utf8::encode_utf8(a).len(),
        i < vstd::utf8::encode_utf8(b).len(),
        vstd::utf8::encode_utf8(a).take(i) == vstd::utf8::encode_utf8(b).take(i),
        i == vstd::utf8::encode_utf8(a).len() || vstd::utf8::encode_utf8(a)[i]
            < vstd::utf8::encode_utf8(b)[i],
    ensures
        sorts_before(a, b),
        !sorts_before(b, a),
{
    let x = vstd::utf8::encode_utf8(a);
    let y = vstd::utf8::encode_utf8(b);
    lemma_before_by_first_difference(x, y, i);
    sorts_before_is_total_order(a, b, a);
}

/// The position of the last character of `s` that is `x` or `y`, or -1.
pub open spec fn last_of(s: Seq<char>, x: char, y: char) -> int
    decreases s.len(),
{
    if s.len() == 0 {
        -1
    } else if s.last() == x || s.last() == y {
        s.len() - 1
    } else {
        last_of(s.drop_last(), x, y)
    }
}

/// Where there is a last such position, one of the two characters stands there.
pub proof fn last_of_stands_there(s: Seq<char>, x: char, y: char)
    ensures
        -1 <= last_of(s, x, y) < s.len(),
        last_of(s, x, y) >= 0 ==> s[last_of(s, x, y)] == x || s[last_of(s, x, y)] == y,
{
    lemma_last_of_range(s, x, y);
}

proof fn lemma_last_of_range(s: Seq<char>, x: char, y: char)
    ensures
        -1 <= last_of(s, x, y) < s.len(),
        last_of(s, x, y) >= 0 ==> s[last_of(s, x, y)] == x || s[last_of(s, x, y)] == y,
    decreases s.len(),
{
    if s.len() > 0 && s.last() != x && s.last() != y {
        lemma_last_of_range(s.drop_last(), x, y);
    }
}

/// `last_of` is the last such position: nothing behind it is `x` or `y`.
pub proof fn last_of_is_last(s: Seq<char>, x: char, y: char, i: int)
    requires
        0 <= i < s.len(),
        s[i] == x || s[i] == y,
    ensures
        i <= last_of(s, x, y) < s.len(),
        s[last_of(s, x, y)] == x || s[last_of(s, x, y)] == y,
    decreases s.len(),
{
    lemma_last_of_range(s, x, y);
    if s.last() != x && s.last() != y {
        last_of_is_last(s.drop_last(), x, y, i);
    }
}

/// Finds the last character of `s` that is `x` or `y`.
fn find_last(s: &str, x: char, y: char) -> (r: Option<usize>)
    ensures
        match r {
            Some(i) => i == last_of(s@, x, y),
            None => last_of(s@, x, y) == -1,
        },
{
    let c = chars_of(s);
    let mut n: usize = c.len();
    assert(c@.take(n as int) =~= c@);
    while n > 0
        invariant
            c@ == s@,
            n <= c@.len(),
            last_of(c@, x, y) == last_of(c@.take(n as int), x, y),
        decreases n,
    {
        assert(c@.take(n as int).drop_last() =~= c@.take(n - 1));
        if c[n - 1] == x || c[n - 1] == y {
            return Some(n - 1);
        }
        n = n - 1;
    }
    None
}

/// What stands behind the last slash or backslash of `path`; all of it where there is none.
pub open spec fn basename_of(path: Seq<char>) -> Seq<char> {
    path.skip(last_of(path, '/', '\\') + 1)
}

/// The file name in a path with slashes or backslashes.
pub fn basename(path: &str) -> (r: &str)
    ensures
        r@ == basename_of(path@),
{
    let n = path.unicode_len();
    match find_last(path, '/', '\\') {
        Some(i) => {
            proof {
                lemma_last_of_range(path@, '/', '\\');
                assert(path@.subrange(i + 1, n as int) =~= path@.skip(i + 1));
            }
            path.substring_char(i + 1, n)
        },
        None => {
            assert(path@.skip(0) =~= path@);
            path
        },
    }
}

/// The file name of a path is all that stands behind its directories: it has neither slash nor
/// backslash, and it is the whole path or stands behind one of them.
pub proof fn basename_is_what_is_last(path: Seq<char>)
    ensures
        ({
            let n = path.len() - basename_of(path).len();
            &&& 0 <= n <= path.len()
            &&& basename_of(path) == path.skip(n)
            &&& !basename_of(path).contains('/')
            &&& !basename_of(path).contains('\\')
            &&& n > 0 ==> path[n - 1] == '/' || path[n - 1] == '\\'
        }),
{
    let i = last_of(path, '/', '\\');
    let name = basename_of(path);
    last_of_stands_there(path, '/', '\\');
    assert forall|k: int| 0 <= k < name.len() implies name[k] != '/' && name[k] != '\\' by {
        if path[i + 1 + k] == '/' || path[i + 1 + k] == '\\' {
            last_of_is_last(path, '/', '\\', i + 1 + k);
        }
    }
}

/// Splitting the path of an object parts it at its last dot or colon: what stands behind has
/// neither, and both parts with what stands between them are the path. A path with neither is not
/// split.
pub proof fn paths_split_at_the_last_separator(path: Seq<char>)
    ensures
        match split_outer_of(path) {
            Some((outer, name)) => {
                &&& path.len() == outer.len() + 1 + name.len()
                &&& path[outer.len() as int] == '.' || path[outer.len() as int] == ':'
                &&& path == outer + seq![path[outer.len() as int]] + name
                &&& !name.contains('.')
                &&& !name.contains(':')
            },
            None => !path.contains('.') && !path.contains(':'),
        },
{
    let i = last_of(path, '.', ':');
    last_of_stands_there(path, '.', ':');
    assert forall|k: int| i < k < path.len() implies path[k] != '.' && path[k] != ':' by {
        if path[k] == '.' || path[k] == ':' {
            last_of_is_last(path, '.', ':', k);
        }
    }
    if let Some((outer, name)) = split_outer_of(path) {
        assert(path =~= outer + seq![path[i]] + name);
    }
}

/// What stands before and behind the last dot or colon of `path`.
pub open spec fn split_outer_of(path: Seq<char>) -> Option<(Seq<char>, Seq<char>)> {
    let i = last_of(path, '.', ':');
    if i < 0 {
        None
    } else {
        Some((path.take(i), path.skip(i + 1)))
    }
}

/// Splits the path of an object at its last dot or colon.
pub fn split_outer(path: &str) -> (r: Option<(&str, &str)>)
    ensures
        match r {
            Some((outer, name)) => split_outer_of(path@) == Some((outer@, name@)),
            None => split_outer_of(path@) is None,
        },
{
    let n = path.unicode_len();
    match find_last(path, '.', ':') {
        Some(i) => {
            proof {
                lemma_last_of_range(path@, '.', ':');
                assert(path@.subrange(i + 1, n as int) =~= path@.skip(i + 1));
                assert(path@.subrange(0, i as int) =~= path@.take(i as int));
            }
            Some((path.substring_char(0, i), path.substring_char(i + 1, n)))
        },
        None => None,
    }
}

/// Whether `s` begins with `prefix`.
pub open spec fn begins_with(s: Seq<char>, prefix: Seq<char>) -> bool {
    prefix.len() <= s.len() && s.take(prefix.len() as int) == prefix
}

/// Tests whether `s` begins with `prefix`.
pub fn starts_with(s: &str, prefix: &str) -> (r: bool)
    ensures
        r == begins_with(s@, prefix@),
{
    let n = prefix.unicode_len();
    if s.unicode_len() < n {
        return false;
    }
    let head = s.substring_char(0, n);
    assert(s@.subrange(0, n as int) =~= s@.take(n as int));
    same_text(head, prefix)
}

/// Tests whether two strings have the same characters.
pub fn same_text(a: &str, b: &str) -> (r: bool)
    ensures
        r == (a@ == b@),
{
    match relate(a, b) {
        Relation::Same => true,
        _ => false,
    }
}

/// An ASCII capital as its small letter; any other character as it is.
pub open spec fn ascii_lower(c: char) -> char {
    if 'A' <= c <= 'Z' {
        (c as u32 + 32) as char
    } else {
        c
    }
}

/// Whether two strings are the same but for the case of ASCII letters.
pub open spec fn same_ignoring_ascii_case(a: Seq<char>, b: Seq<char>) -> bool {
    a.len() == b.len() && forall|i: int|
        0 <= i < a.len() ==> ascii_lower(#[trigger] a[i]) == ascii_lower(b[i])
}

/// Whether two characters are one, or the capital and the small one of an ASCII letter.
pub open spec fn same_letter(a: char, b: char) -> bool {
    ||| a == b
    ||| 'A' <= a <= 'Z' && b as u32 == a as u32 + 32
    ||| 'A' <= b <= 'Z' && a as u32 == b as u32 + 32
}

/// Two strings are the same but for the case of ASCII letters where they have equally many
/// characters and those at each place are one, or the capital and the small one of a letter.
pub proof fn only_case_of_letters_is_ignored(a: Seq<char>, b: Seq<char>)
    ensures
        same_ignoring_ascii_case(a, b) <==> a.len() == b.len() && forall|i: int|
            0 <= i < a.len() ==> same_letter(#[trigger] a[i], b[i]),
{
    assert forall|x: char, y: char|
        #![trigger same_letter(x, y)]
        same_letter(x, y) <==> ascii_lower(x) == ascii_lower(y) by {}
    if same_ignoring_ascii_case(a, b) {
        assert forall|i: int| 0 <= i < a.len() implies same_letter(#[trigger] a[i], b[i]) by {
            assert(ascii_lower(a[i]) == ascii_lower(b[i]));
        }
    }
    if a.len() == b.len() && forall|i: int|
        0 <= i < a.len() ==> same_letter(#[trigger] a[i], b[i]) {
        assert forall|i: int| 0 <= i < a.len() implies ascii_lower(#[trigger] a[i]) == ascii_lower(
            b[i],
        ) by {
            assert(same_letter(a[i], b[i]));
        }
    }
}

fn lower_code(c: char) -> (r: u32)
    ensures
        r == ascii_lower(c) as u32,
{
    if 'A' <= c && c <= 'Z' {
        c as u32 + 32
    } else {
        c as u32
    }
}

/// Tests whether two strings are the same but for the case of ASCII letters.
pub fn eq_ignore_ascii_case(a: &str, b: &str) -> (r: bool)
    ensures
        r == same_ignoring_ascii_case(a@, b@),
{
    let x = chars_of(a);
    let y = chars_of(b);
    if x.len() != y.len() {
        return false;
    }
    let mut i: usize = 0;
    while i < x.len()
        invariant
            x@ == a@,
            y@ == b@,
            x@.len() == y@.len(),
            i <= x@.len(),
            forall|k: int| 0 <= k < i ==> ascii_lower(#[trigger] x@[k]) == ascii_lower(y@[k]),
        decreases x@.len() - i,
    {
        if lower_code(x[i]) != lower_code(y[i]) {
            assert(ascii_lower(x@[i as int]) != ascii_lower(y@[i as int]));
            return false;
        }
        i = i + 1;
    }
    true
}

/// The first `n` of the texts, with `separator` between two of them.
pub open spec fn joined(texts: Seq<Seq<char>>, n: nat, separator: Seq<char>) -> Seq<char>
    decreases n,
{
    if n == 0 {
        Seq::empty()
    } else if n == 1 {
        texts[0]
    } else {
        joined(texts, (n - 1) as nat, separator) + separator + texts[n - 1]
    }
}

/// Joining begins with the first text, and each further text stands behind the separator. Nothing
/// joined is nothing.
pub proof fn joining_puts_texts_behind_each_other(
    texts: Seq<Seq<char>>,
    more: Seq<char>,
    separator: Seq<char>,
)
    ensures
        joined(Seq::empty(), 0, separator) == Seq::<char>::empty(),
        joined(texts.push(more), texts.len() + 1, separator) == if texts.len() == 0 {
            more
        } else {
            joined(texts, texts.len(), separator) + separator + more
        },
{
    lemma_joined_alike(texts, texts.push(more), texts.len(), separator);
}

proof fn lemma_joined_alike(a: Seq<Seq<char>>, b: Seq<Seq<char>>, n: nat, separator: Seq<char>)
    requires
        n <= a.len(),
        n <= b.len(),
        forall|i: int| 0 <= i < n ==> #[trigger] a[i] == b[i],
    ensures
        joined(a, n, separator) == joined(b, n, separator),
    decreases n,
{
    if n > 1 {
        lemma_joined_alike(a, b, (n - 1) as nat, separator);
        assert(a[n - 1] == b[n - 1]);
    } else if n == 1 {
        assert(a[0] == b[0]);
    }
}

/// Joins texts, with `separator` between two of them.
pub fn join(texts: &Vec<&str>, separator: &str) -> (r: String)
    ensures
        r@ == joined(texts.deep_view(), texts@.len(), separator@),
{
    let mut r = String::new();
    let mut i: usize = 0;
    while i < texts.len()
        invariant
            i <= texts@.len(),
            r@ == joined(texts.deep_view(), i as nat, separator@),
        decreases texts@.len() - i,
    {
        assert(texts.deep_view()[i as int] == texts@[i as int]@);
        if i > 0 {
            r.append(separator);
        }
        r.append(texts[i]);
        assert(r@ =~= joined(texts.deep_view(), (i + 1) as nat, separator@));
        i = i + 1;
    }
    r
}

/// A copy of a text, if there is one.
pub fn copy_text(text: &Option<String>) -> (r: Option<String>)
    ensures
        r == *text,
{
    match text {
        Some(text) => Some(text.clone()),
        None => None,
    }
}

/// A text begins with another just where it is that with something behind it, be it nothing.
pub proof fn what_begins_a_text_stands_in_front(s: Seq<char>, prefix: Seq<char>)
    ensures
        begins_with(s, prefix) <==> exists|rest: Seq<char>| s == #[trigger] (prefix + rest),
        forall|k: int|
            begins_with(s, prefix) && 0 <= k < prefix.len() ==> s[k] == #[trigger] prefix[k],
{
    if begins_with(s, prefix) {
        let rest = s.skip(prefix.len() as int);
        assert(s =~= prefix + rest);
        assert forall|k: int| 0 <= k < prefix.len() implies s[k] == #[trigger] prefix[k] by {
            assert(s.take(prefix.len() as int)[k] == s[k]);
        }
    }
    if exists|rest: Seq<char>| s == #[trigger] (prefix + rest) {
        assert(s.take(prefix.len() as int) =~= prefix);
    }
}

} // verus!

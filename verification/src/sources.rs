//! Naming a source file after its path below the root of its source set.
use vstd::prelude::*;

use crate::parse_util::{lemma_split_from_len, split_chars, split_on};
use crate::text::{chars_of, string_of};

verus! {

/// `s` with every occurrence of `pattern`, taken from left to right, removed (as
/// `str::replace` with an empty replacement does; an empty pattern removes nothing).
pub open spec fn remove_all(s: Seq<char>, pattern: Seq<char>) -> Seq<char>
    decreases s.len(),
{
    if pattern.len() == 0 || s.len() < pattern.len() {
        s
    } else if s.take(pattern.len() as int) == pattern {
        remove_all(s.skip(pattern.len() as int), pattern)
    } else {
        seq![s[0]] + remove_all(s.drop_first(), pattern)
    }
}

/// `s` with every `c` replaced by `::`.
pub open spec fn colons_for(s: Seq<char>, c: char) -> Seq<char>
    decreases s.len(),
{
    if s.len() == 0 {
        s
    } else if s.last() == c {
        colons_for(s.drop_last(), c) + seq![':', ':']
    } else {
        colons_for(s.drop_last(), c).push(s.last())
    }
}

/// How many bytes a character takes in UTF-8.
pub open spec fn utf8_width(c: char) -> int {
    if (c as u32) < 0x80 {
        1
    } else if (c as u32) < 0x800 {
        2
    } else if (c as u32) < 0x10000 {
        3
    } else {
        4
    }
}

/// How many bytes a text takes in UTF-8.
pub open spec fn byte_len(s: Seq<char>) -> int
    decreases s.len(),
{
    if s.len() == 0 {
        0
    } else {
        byte_len(s.drop_last()) + utf8_width(s.last())
    }
}

/// The characters of `s` between the byte offsets `start` and `end`, as slicing a `str`
/// gives them; `None` where slicing panics (an offset out of order or not between two
/// characters).
pub open spec fn byte_slice(s: Seq<char>, start: int, end: int) -> Option<Seq<char>> {
    if exists|i: int, j: int|
        0 <= i <= j <= s.len() && byte_len(s.take(i)) == start && byte_len(s.take(j)) == end {
        let (i, j) = choose|i: int, j: int|
            0 <= i <= j <= s.len() && byte_len(s.take(i)) == start && byte_len(s.take(j)) == end;
        Some(s.subrange(i, j))
    } else {
        None
    }
}

/// The name of the file at `path` below the source root `root`: the path without the
/// root, each `separator` and `/` turned into `::`, and without its first two bytes (the
/// `::` left by the root) and its last three (the extension). A path that is all root is
/// named after its last part, without the extension. `None` where that slicing panics.
pub open spec fn relative_name(root: Seq<char>, path: Seq<char>, separator: char) -> Option<Seq<char>> {
    let name = colons_for(colons_for(remove_all(path, root), separator), '/');
    if name.len() == 0 {
        let last = split_on(path, separator).last();
        byte_slice(last, 0, byte_len(last) - 3)
    } else {
        byte_slice(name, 2, byte_len(name) - 3)
    }
}

proof fn lemma_remove_all_step(s: Seq<char>, pattern: Seq<char>, i: int)
    requires
        pattern.len() > 0,
        0 <= i <= s.len(),
    ensures
        i + pattern.len() <= s.len() && s.subrange(i, i + pattern.len()) == pattern ==> remove_all(s.skip(i), pattern)
            == remove_all(s.skip(i + pattern.len()), pattern),
        i < s.len() && !(i + pattern.len() <= s.len() && s.subrange(i, i + pattern.len()) == pattern)
            ==> remove_all(s.skip(i), pattern) == seq![s[i]] + remove_all(s.skip(i + 1), pattern),
        s.len() < i + pattern.len() ==> remove_all(s.skip(i), pattern) == s.skip(i),
{
    let t = s.skip(i);
    if i + pattern.len() <= s.len() {
        assert(t.take(pattern.len() as int) =~= s.subrange(i, i + pattern.len()));
        assert(t.skip(pattern.len() as int) =~= s.skip(i + pattern.len()));
        assert(t.drop_first() =~= s.skip(i + 1));
    }
}

/// Removes every occurrence of `pattern` (see `remove_all`).
fn remove_pattern(s: &Vec<char>, pattern: &Vec<char>) -> (r: Vec<char>)
    ensures
        r@ == remove_all(s@, pattern@),
{
    if pattern.len() == 0 {
        let mut copy: Vec<char> = Vec::new();
        let mut k: usize = 0;
        while k < s.len()
            invariant
                k <= s@.len(),
                copy@ == s@.take(k as int),
            decreases s@.len() - k,
        {
            copy.push(s[k]);
            proof {
                assert(s@.take(k + 1) =~= s@.take(k as int).push(s@[k as int]));
            }
            k += 1;
        }
        proof {
            assert(s@.take(k as int) =~= s@);
        }
        return copy;
    }
    let mut out: Vec<char> = Vec::new();
    let mut i: usize = 0;
    proof {
        assert(s@.skip(0) =~= s@);
    }
    while i < s.len()
        invariant
            i <= s@.len(),
            pattern@.len() > 0,
            out@ + remove_all(s@.skip(i as int), pattern@) == remove_all(s@, pattern@),
        decreases s@.len() - i,
    {
        let mut matched = pattern.len() <= s.len() - i;
        let mut k: usize = 0;
        while matched && k < pattern.len()
            invariant
                i <= s@.len(),
                s@.len() == s.len(),
                k <= pattern@.len(),
                matched ==> i + pattern@.len() <= s@.len(),
                matched ==> forall|m: int| 0 <= m < k ==> s@[i + m] == pattern@[m],
                !matched ==> !(i + pattern@.len() <= s@.len() && s@.subrange(i as int, i + pattern@.len()) == pattern@),
            decreases pattern@.len() - k + (if matched { 1int } else { 0int }),
        {
            if s[i + k] != pattern[k] {
                proof {
                    if i + pattern@.len() <= s@.len() && s@.subrange(i as int, i + pattern@.len()) == pattern@ {
                        assert(s@.subrange(i as int, i + pattern@.len())[k as int] == s@[i + k]);
                    }
                }
                matched = false;
            } else {
                k += 1;
            }
        }
        proof {
            lemma_remove_all_step(s@, pattern@, i as int);
            if matched {
                assert(s@.subrange(i as int, i + pattern@.len()) =~= pattern@);
            }
        }
        if matched {
            i += pattern.len();
        } else {
            let ghost before = out@;
            out.push(s[i]);
            proof {
                if i + pattern@.len() > s@.len() {
                    assert(s@.skip(i as int) =~= seq![s@[i as int]] + s@.skip(i + 1));
                    assert(remove_all(s@.skip(i + 1), pattern@) == s@.skip(i + 1)) by {
                        lemma_remove_all_step(s@, pattern@, i + 1);
                    }
                }
                assert(out@ + remove_all(s@.skip(i + 1), pattern@) =~= before + (seq![s@[i as int]] + remove_all(
                    s@.skip(i + 1),
                    pattern@,
                )));
            }
            i += 1;
        }
    }
    proof {
        assert(s@.skip(i as int) =~= Seq::<char>::empty());
        assert(out@ + Seq::<char>::empty() =~= out@);
    }
    out
}

/// Turns every `c` into `::` (see `colons_for`).
fn colons_instead(s: &Vec<char>, c: char) -> (r: Vec<char>)
    ensures
        r@ == colons_for(s@, c),
{
    let mut out: Vec<char> = Vec::new();
    let mut i: usize = 0;
    while i < s.len()
        invariant
            i <= s@.len(),
            out@ == colons_for(s@.take(i as int), c),
        decreases s@.len() - i,
    {
        proof {
            assert(s@.take(i + 1).drop_last() =~= s@.take(i as int));
        }
        if s[i] == c {
            let ghost before = out@;
            out.push(':');
            out.push(':');
            proof {
                assert(out@ =~= before + seq![':', ':']);
            }
        } else {
            out.push(s[i]);
        }
        i += 1;
    }
    proof {
        assert(s@.take(i as int) =~= s@);
    }
    out
}

/// How many bytes a character takes in UTF-8.
fn char_width(c: char) -> (r: usize)
    ensures
        r == utf8_width(c),
{
    let code = c as u32;
    if code < 0x80 {
        1
    } else if code < 0x800 {
        2
    } else if code < 0x10000 {
        3
    } else {
        4
    }
}

proof fn lemma_byte_len_prefix(s: Seq<char>, i: int, j: int)
    requires
        0 <= i <= j <= s.len(),
    ensures
        byte_len(s.take(i)) <= byte_len(s.take(j)),
        i < j ==> byte_len(s.take(i)) < byte_len(s.take(j)),
    decreases j - i,
{
    if i < j {
        assert(s.take(j).drop_last() =~= s.take(j - 1));
        lemma_byte_len_prefix(s, i, j - 1);
    }
}

proof fn lemma_byte_len_front(c: char, t: Seq<char>)
    ensures
        byte_len(seq![c] + t) == utf8_width(c) + byte_len(t),
    decreases t.len(),
{
    let u = seq![c] + t;
    assert(u.len() > 0);
    assert(byte_len(u) == byte_len(u.drop_last()) + utf8_width(u.last()));
    if t.len() > 0 {
        assert((seq![c] + t).drop_last() =~= seq![c] + t.drop_last());
        assert((seq![c] + t).last() == t.last());
        lemma_byte_len_front(c, t.drop_last());
    } else {
        assert((seq![c] + t).drop_last() =~= Seq::<char>::empty());
        assert((seq![c] + t).last() == c);
        assert(byte_len(t) == 0);
    }
}

proof fn lemma_byte_len_split(s: Seq<char>, j: int)
    requires
        0 <= j <= s.len(),
    ensures
        byte_len(s) == byte_len(s.take(j)) + byte_len(s.skip(j)),
    decreases s.len(),
{
    if j == s.len() {
        assert(s.take(j) =~= s);
        assert(s.skip(j) =~= Seq::<char>::empty());
    } else {
        lemma_byte_len_split(s.drop_last(), j);
        assert(s.drop_last().take(j) =~= s.take(j));
        assert(s.skip(j).drop_last() =~= s.drop_last().skip(j));
        assert(s.skip(j).last() == s.last());
    }
}

/// The characters between `front` bytes from the start and `back` bytes from the end, or
/// `None` where slicing there panics (see `byte_slice`).
fn slice_bytes(s: &Vec<char>, front: usize, back: usize) -> (r: Option<Vec<char>>)
    requires
        front <= 4,
        back <= 4,
    ensures
        match r {
            Some(v) => byte_slice(s@, front as int, byte_len(s@) - back) == Some(v@),
            None => byte_slice(s@, front as int, byte_len(s@) - back) is None,
        },
{
    let ghost total = byte_len(s@);
    let mut a: usize = 0;
    let mut head: usize = 0;
    proof {
        assert(s@.take(0) =~= Seq::<char>::empty());
    }
    while a < s.len() && head < front
        invariant
            a <= s@.len(),
            head == byte_len(s@.take(a as int)),
            head <= front + 4,
            front <= 4,
            forall|k: int| 0 <= k < a ==> byte_len(#[trigger] s@.take(k)) < front,
        decreases s@.len() - a,
    {
        proof {
            assert(s@.take(a + 1).drop_last() =~= s@.take(a as int));
        }
        head = head + char_width(s[a]);
        a += 1;
    }
    let mut b: usize = s.len();
    let mut tail: usize = 0;
    proof {
        assert(s@.skip(b as int) =~= Seq::<char>::empty());
    }
    while b > 0 && tail < back
        invariant
            b <= s@.len(),
            tail == byte_len(s@.skip(b as int)),
            tail <= back + 4,
            back <= 4,
            forall|k: int| b < k <= s@.len() ==> byte_len(#[trigger] s@.skip(k)) < back,
        decreases b,
    {
        proof {
            assert(s@.skip(b - 1) =~= seq![s@[b - 1]] + s@.skip(b as int));
            lemma_byte_len_front(s@[b - 1], s@.skip(b as int));
        }
        tail = tail + char_width(s[b - 1]);
        b -= 1;
    }
    proof {
        lemma_byte_len_split(s@, b as int);
        assert forall|k: int| 0 <= k <= s@.len() && byte_len(s@.take(k)) == front implies k == a by {
            if k < a {
                assert(byte_len(s@.take(k)) < front);
            } else if a < k {
                lemma_byte_len_prefix(s@, a as int, k);
            }
        }
        assert forall|k: int| 0 <= k <= s@.len() && byte_len(s@.take(k)) == total - back implies k == b by {
            lemma_byte_len_split(s@, k);
            if b < k {
                assert(byte_len(s@.skip(k)) < back);
            } else if k < b {
                lemma_byte_len_prefix(s@, k, b as int);
            }
        }
    }
    if head == front && tail == back && a <= b {
        let mut out: Vec<char> = Vec::new();
        let mut k = a;
        while k < b
            invariant
                a <= k <= b <= s@.len(),
                out@ == s@.subrange(a as int, k as int),
            decreases b - k,
        {
            out.push(s[k]);
            k += 1;
        }
        proof {
            assert(byte_len(s@.take(a as int)) == front && byte_len(s@.take(b as int)) == total - back);
        }
        Some(out)
    } else {
        proof {
            if exists|i: int, j: int|
                0 <= i <= j <= s@.len() && byte_len(s@.take(i)) == front && byte_len(s@.take(j)) == total - back {
                let (i, j) = choose|i: int, j: int|
                    0 <= i <= j <= s@.len() && byte_len(s@.take(i)) == front && byte_len(s@.take(j)) == total - back;
                assert(i == a);
                assert(j == b);
            }
        }
        None
    }
}

/// The name of the file at `path` below the root `root` (see `relative_name`), or `None`
/// where taking it would slice the text out of bounds or inside a character.
pub fn try_relative(root: &str, path: &str, separator: char) -> (r: Option<String>)
    ensures
        match r {
            Some(name) => relative_name(root@, path@, separator) == Some(name@),
            None => relative_name(root@, path@, separator) is None,
        },
{
    let root_chars = chars_of(root);
    let path_chars = chars_of(path);
    let without_root = remove_pattern(&path_chars, &root_chars);
    let name = colons_instead(&colons_instead(&without_root, separator), '/');
    let kept = if name.len() == 0 {
        let parts = split_chars(&path_chars, separator);
        proof {
            lemma_split_from_len(path_chars@, separator, 0, Seq::empty(), Seq::empty());
        }
        slice_bytes(&parts[parts.len() - 1], 0, 3)
    } else {
        slice_bytes(&name, 2, 3)
    };
    match kept {
        Some(chars) => Some(string_of(chars.as_slice())),
        None => None,
    }
}

/// The name of the file at `path` below the root `root` (see `relative_name`).
pub fn relative(root: &str, path: &str, separator: char) -> (r: String)
    requires
        relative_name(root@, path@, separator) is Some,
    ensures
        relative_name(root@, path@, separator) == Some(r@),
{
    match try_relative(root, path, separator) {
        Some(name) => name,
        None => String::new(),
    }
}

} // verus!

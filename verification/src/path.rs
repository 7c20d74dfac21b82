//! Paths: segments joined by a separator, and the text of integer keys.

use vstd::prelude::*;

verus! {

/// The character that joins the segments of a path.
pub const SEPARATOR: char = '.';

/// Whether `text` holds the separator.
pub open spec fn has_separator(text: Seq<char>) -> bool {
    text.contains(SEPARATOR)
}

/// The path of `segment` below `prefix`; an empty prefix adds nothing.
pub open spec fn join(prefix: Seq<char>, segment: Seq<char>) -> Seq<char> {
    if prefix.len() == 0 {
        segment
    } else {
        prefix + seq![SEPARATOR] + segment
    }
}

/// Whether `text` can stand in a path as one segment: it is not empty and holds no separator.
pub open spec fn is_segment(text: Seq<char>) -> bool {
    text.len() > 0 && !has_separator(text)
}

/// Whether `path` is made of segments alone: it is not empty, neither begins nor ends with
/// the separator, and holds no two separators side by side.
pub open spec fn is_path(path: Seq<char>) -> bool {
    &&& path.len() > 0
    &&& path[0] != SEPARATOR
    &&& path[path.len() - 1] != SEPARATOR
    &&& forall|i: int|
        0 <= i < path.len() - 1 ==> !(#[trigger] path[i] == SEPARATOR && path[i + 1] == SEPARATOR)
}

/// A segment joined to nothing, or to a path, gives a path.
pub proof fn lemma_join_is_path(prefix: Seq<char>, segment: Seq<char>)
    requires
        prefix.len() == 0 || is_path(prefix),
        is_segment(segment),
    ensures
        is_path(join(prefix, segment)),
{
    let path = join(prefix, segment);
    assert forall|i: int| 0 <= i < segment.len() implies segment[i] != SEPARATOR by {
        assert(segment.contains(segment[i]));
    }
    if prefix.len() > 0 {
        let n = prefix.len() as int;
        assert forall|i: int| 0 <= i < path.len() - 1 implies !(#[trigger] path[i] == SEPARATOR
            && path[i + 1] == SEPARATOR) by {
            if i < n - 1 {
                assert(path[i] == prefix[i]);
                assert(path[i + 1] == prefix[i + 1]);
            } else if i == n - 1 {
                assert(path[i] == prefix[n - 1]);
            } else if i == n {
                assert(path[i + 1] == segment[0]);
            } else {
                assert(path[i] == segment[i - n - 1]);
            }
        }
        assert(path[0] == prefix[0]);
        assert(path[path.len() - 1] == segment[segment.len() - 1]);
    }
}

/// The path that `segments` spell below `prefix`, each joined to what the ones before it
/// spell.
pub open spec fn spell(prefix: Seq<char>, segments: Seq<Seq<char>>) -> Seq<char>
    decreases segments.len(),
{
    if segments.len() == 0 {
        prefix
    } else {
        spell(join(prefix, segments[0]), segments.skip(1))
    }
}

/// Whether `path` lies below `prefix`: it is `prefix`, then the separator, then more.
pub open spec fn below(prefix: Seq<char>, path: Seq<char>) -> bool {
    &&& path.len() > prefix.len()
    &&& path.subrange(0, prefix.len() as int) == prefix
    &&& path[prefix.len() as int] == SEPARATOR
}

/// Whether `path` is `prefix` or lies below it.
pub open spec fn at_or_below(prefix: Seq<char>, path: Seq<char>) -> bool {
    path == prefix || below(prefix, path)
}

/// A segment joined to a prefix that is not empty lies below the prefix.
pub proof fn lemma_join_below(prefix: Seq<char>, segment: Seq<char>)
    requires
        prefix.len() > 0,
    ensures
        below(prefix, join(prefix, segment)),
{
    let path = join(prefix, segment);
    assert(path.subrange(0, prefix.len() as int) =~= prefix);
}

/// What lies below a path lies below all that the path lies below.
pub proof fn lemma_below_transitive(top: Seq<char>, middle: Seq<char>, path: Seq<char>)
    requires
        below(top, middle),
        below(middle, path),
    ensures
        below(top, path),
{
    let n = top.len() as int;
    let m = middle.len() as int;
    assert(path.subrange(0, m)[n] == middle[n]);
    assert(path.subrange(0, n) =~= middle.subrange(0, n)) by {
        assert forall|i: int| 0 <= i < n implies path.subrange(0, n)[i] == middle.subrange(
            0,
            n,
        )[i] by {
            assert(path.subrange(0, m)[i] == middle[i]);
        }
    }
}

/// Segments spelled below a prefix that is not empty give a path below the prefix.
pub proof fn lemma_spell_below(prefix: Seq<char>, segments: Seq<Seq<char>>)
    requires
        prefix.len() > 0,
        segments.len() > 0,
    ensures
        below(prefix, spell(prefix, segments)),
    decreases segments.len(),
{
    let next = join(prefix, segments[0]);
    lemma_join_below(prefix, segments[0]);
    if segments.len() > 1 {
        lemma_spell_below(next, segments.skip(1));
        lemma_below_transitive(prefix, next, spell(prefix, segments));
    } else {
        assert(spell(next, segments.skip(1)) == next);
    }
}

/// Two segments without a separator that lead, below one prefix, to one path are one
/// segment: the path shows where its first segment ends.
pub proof fn lemma_one_head(prefix: Seq<char>, a: Seq<char>, b: Seq<char>, path: Seq<char>)
    requires
        !has_separator(a),
        !has_separator(b),
        at_or_below(join(prefix, a), path),
        at_or_below(join(prefix, b), path),
    ensures
        a == b,
{
    let lead: Seq<char> = if prefix.len() == 0 {
        Seq::empty()
    } else {
        prefix + seq![SEPARATOR]
    };
    let n = lead.len() as int;
    assert(join(prefix, a) =~= lead + a);
    assert(join(prefix, b) =~= lead + b);
    let pa = lead + a;
    let pb = lead + b;
    // Up to the end of each head, the path is that head.
    assert forall|i: int| 0 <= i < pa.len() implies path[i] == pa[i] by {
        if path != pa {
            assert(path.subrange(0, pa.len() as int)[i] == pa[i]);
        }
    }
    assert forall|i: int| 0 <= i < pb.len() implies path[i] == pb[i] by {
        if path != pb {
            assert(path.subrange(0, pb.len() as int)[i] == pb[i]);
        }
    }
    if a.len() < b.len() {
        // The path ends, or has a separator, where `b` has none.
        assert(pb[n + a.len()] == b[a.len() as int]);
        assert(b.contains(b[a.len() as int]));
        assert(false);
    } else if b.len() < a.len() {
        assert(pa[n + b.len()] == a[b.len() as int]);
        assert(a.contains(a[b.len() as int]));
        assert(false);
    } else {
        assert forall|i: int| 0 <= i < a.len() implies a[i] == b[i] by {
            assert(pa[n + i] == a[i]);
            assert(pb[n + i] == b[i]);
        }
        assert(a =~= b);
    }
}

/// The ten decimal digits, in order.
pub open spec fn digits() -> Seq<char> {
    seq!['0', '1', '2', '3', '4', '5', '6', '7', '8', '9']
}

/// The decimal text of a natural number, without leading zeros.
pub open spec fn decimal(n: nat) -> Seq<char>
    decreases n,
{
    if n < 10 {
        seq![digits()[n as int]]
    } else {
        decimal(n / 10).push(digits()[(n % 10) as int])
    }
}

/// The decimal text of an integer: a minus sign before the digits of a negative one.
pub open spec fn integer_text(i: int) -> Seq<char> {
    if i < 0 {
        seq!['-'] + decimal((-i) as nat)
    } else {
        decimal(i as nat)
    }
}

pub fn contains_separator(text: &str) -> (found: bool)
    ensures
        found == has_separator(text@),
{
    let mut found = false;
    for c in it: text.chars()
        invariant
            it.seq() == text@,
            found <==> exists|j: int| 0 <= j < it.index() && text@[j] == SEPARATOR,
    {
        if c == SEPARATOR {
            found = true;
        }
    }
    found
}

/// Tells whether `text` can stand in a path as one segment.
pub fn is_path_segment(text: &str) -> (fit: bool)
    ensures
        fit == is_segment(text@),
{
    !text.is_empty() && !contains_separator(text)
}

/// Joins `segment` to `prefix` with the separator between them.
pub fn join_path(prefix: &str, segment: &str) -> (path: String)
    ensures
        path@ == join(prefix@, segment@),
{
    if prefix.is_empty() {
        segment.to_owned()
    } else {
        proof {
            reveal_strlit(".");
        }
        let mut path = prefix.to_owned();
        path.append(".");
        path.append(segment);
        assert(path@ == prefix@ + seq![SEPARATOR] + segment@);
        path
    }
}

fn digit_text(d: u64) -> (text: &'static str)
    requires
        d < 10,
    ensures
        text@ == seq![digits()[d as int]],
{
    proof {
        reveal_strlit("0");
        reveal_strlit("1");
        reveal_strlit("2");
        reveal_strlit("3");
        reveal_strlit("4");
        reveal_strlit("5");
        reveal_strlit("6");
        reveal_strlit("7");
        reveal_strlit("8");
        reveal_strlit("9");
    }
    let text = if d == 0 {
        "0"
    } else if d == 1 {
        "1"
    } else if d == 2 {
        "2"
    } else if d == 3 {
        "3"
    } else if d == 4 {
        "4"
    } else if d == 5 {
        "5"
    } else if d == 6 {
        "6"
    } else if d == 7 {
        "7"
    } else if d == 8 {
        "8"
    } else {
        "9"
    };
    assert(text@ =~= seq![digits()[d as int]]);
    text
}

/// Writes a natural number in decimal.
pub fn decimal_string(n: u64) -> (text: String)
    ensures
        text@ == decimal(n as nat),
    decreases n,
{
    if n < 10 {
        digit_text(n).to_owned()
    } else {
        let mut text = decimal_string(n / 10);
        text.append(digit_text(n % 10));
        text
    }
}

/// Writes an integer in decimal.
pub fn integer_string(i: i64) -> (text: String)
    ensures
        text@ == integer_text(i as int),
{
    if i < 0 {
        proof {
            reveal_strlit("-");
        }
        let magnitude: u64 = if i == i64::MIN {
            9223372036854775808u64
        } else {
            (-i) as u64
        };
        let mut text = "-".to_owned();
        text.append(decimal_string(magnitude).as_str());
        assert(text@ == seq!['-'] + decimal((-i) as nat));
        text
    } else {
        decimal_string(i as u64)
    }
}

} // verus!

//! Character-sequence helpers: equality, lexicographic order, splitting
//! into lines and around a separator character, and leading-blank trimming.

use vstd::prelude::*;
use vstd::string::StrSliceExecFns;
use vstd::string::StringExecFns;

verus! {

/// Whether `r` tells that the two strings hold the same characters.
pub(crate) fn str_eq(a: &str, b: &str) -> (r: bool)
    ensures
        r == (a@ == b@),
{
    let alen = a.unicode_len();
    let blen = b.unicode_len();
    if alen != blen {
        return false;
    }
    let mut i: usize = 0;
    while i < alen
        invariant
            i <= alen,
            alen == a@.len(),
            blen == b@.len(),
            alen == blen,
            forall|j: int| 0 <= j < i ==> a@[j] == b@[j],
        decreases alen - i,
    {
        if a.get_char(i) != b.get_char(i) {
            return false;
        }
        i += 1;
    }
    proof {
        assert(a@ =~= b@);
    }
    true
}

/// Strict lexicographic order on character sequences, by code point.
pub open spec fn lex_lt(a: Seq<char>, b: Seq<char>) -> bool
    decreases b.len(),
{
    if b.len() == 0 {
        false
    } else if a.len() == 0 {
        true
    } else if a.first() < b.first() {
        true
    } else if b.first() < a.first() {
        false
    } else {
        lex_lt(a.drop_first(), b.drop_first())
    }
}

/// Any two sequences are ordered one way, the other, or equal.
pub proof fn lemma_lex_trichotomy(a: Seq<char>, b: Seq<char>)
    ensures
        lex_lt(a, b) || lex_lt(b, a) || a == b,
    decreases b.len(),
{
    if a.len() == 0 && b.len() == 0 {
        assert(a =~= b);
    } else if a.len() > 0 && b.len() > 0 && a.first() == b.first() {
        lemma_lex_trichotomy(a.drop_first(), b.drop_first());
        if !lex_lt(a, b) && !lex_lt(b, a) {
            assert(a.drop_first() == b.drop_first());
            assert forall|j: int| 0 <= j < a.len() implies a[j] == b[j] by {
                if j > 0 {
                    assert(a.drop_first()[j - 1] == b.drop_first()[j - 1]);
                }
            }
            assert(a =~= b);
        }
    }
}

/// The order is irreflexive on each pair: at most one direction holds.
pub proof fn lemma_lex_asymmetric(a: Seq<char>, b: Seq<char>)
    ensures
        lex_lt(a, b) ==> !lex_lt(b, a) && a != b,
    decreases b.len(),
{
    if a.len() > 0 && b.len() > 0 && a.first() == b.first() {
        lemma_lex_asymmetric(a.drop_first(), b.drop_first());
        if lex_lt(a, b) && a.drop_first() != b.drop_first() {
            assert(a != b);
        }
    }
}

/// The order is transitive.
pub proof fn lemma_lex_transitive(a: Seq<char>, b: Seq<char>, c: Seq<char>)
    ensures
        lex_lt(a, b) && lex_lt(b, c) ==> lex_lt(a, c),
    decreases c.len(),
{
    if a.len() > 0 && b.len() > 0 && c.len() > 0 {
        lemma_lex_transitive(a.drop_first(), b.drop_first(), c.drop_first());
    }
}

/// Whether `r` tells that `a` comes strictly before `b` in lexicographic
/// order.
pub(crate) fn str_lt(a: &str, b: &str) -> (r: bool)
    ensures
        r == lex_lt(a@, b@),
{
    let alen = a.unicode_len();
    let blen = b.unicode_len();
    let mut i: usize = 0;
    proof {
        assert(a@.skip(0) =~= a@);
        assert(b@.skip(0) =~= b@);
    }
    while i < alen && i < blen
        invariant
            i <= alen,
            i <= blen,
            alen == a@.len(),
            blen == b@.len(),
            lex_lt(a@, b@) == lex_lt(a@.skip(i as int), b@.skip(i as int)),
        decreases alen - i,
    {
        let ca = a.get_char(i);
        let cb = b.get_char(i);
        if ca < cb {
            return true;
        }
        if cb < ca {
            return false;
        }
        proof {
            assert(a@.skip(i + 1 as int) =~= a@.skip(i as int).drop_first());
            assert(b@.skip(i + 1 as int) =~= b@.skip(i as int).drop_first());
        }
        i += 1;
    }
    proof {
        if i == alen {
            assert(a@.skip(i as int) =~= Seq::<char>::empty());
        }
        if i == blen {
            assert(b@.skip(i as int) =~= Seq::<char>::empty());
        }
    }
    alen < blen
}

/// The character sequences the strings of a vector hold.
pub open spec fn views(ss: Seq<String>) -> Seq<Seq<char>> {
    ss.map_values(|s: String| s@)
}

/// The parts of `s` around each occurrence of `sep`: a separator as last
/// character opens a new empty part, any other last character extends the
/// last part. A sequence without the separator is one part; there is
/// always at least one part.
pub open spec fn spec_split(s: Seq<char>, sep: char) -> Seq<Seq<char>>
    decreases s.len(),
{
    if s.len() == 0 {
        seq![Seq::<char>::empty()]
    } else {
        let r = spec_split(s.drop_last(), sep);
        if s.last() == sep {
            r.push(Seq::<char>::empty())
        } else {
            r.drop_last().push(r.last().push(s.last()))
        }
    }
}

pub proof fn lemma_split_nonempty(s: Seq<char>, sep: char)
    ensures
        spec_split(s, sep).len() >= 1,
    decreases s.len(),
{
    if s.len() > 0 {
        lemma_split_nonempty(s.drop_last(), sep);
    }
}

/// Splits a string around a separator character.
pub(crate) fn split_on_char(s: &str, sep: char) -> (parts: Vec<String>)
    ensures
        views(parts@) == spec_split(s@, sep),
{
    let n = s.unicode_len();
    let mut parts: Vec<String> = Vec::new();
    let mut cur: String = String::new();
    let mut i: usize = 0;
    while i < n
        invariant
            i <= n,
            n == s@.len(),
            views(parts@).push(cur@) =~= spec_split(s@.subrange(0, i as int), sep),
        decreases n - i,
    {
        let ghost pfx = s@.subrange(0, i as int);
        let ghost pfx1 = s@.subrange(0, i + 1 as int);
        proof {
            assert(pfx1.drop_last() =~= pfx);
            assert(pfx1.last() == s@[i as int]);
        }
        let c = s.get_char(i);
        if c == sep {
            parts.push(cur);
            cur = String::new();
            proof {
                assert(views(parts@) =~= spec_split(pfx, sep));
                assert(views(parts@).push(cur@) =~= spec_split(pfx1, sep));
            }
        } else {
            let piece = s.substring_char(i, i + 1);
            let ghost cur0 = cur@;
            proof {
                assert(piece@ =~= seq![s@[i as int]]);
                let r = spec_split(pfx, sep);
                assert(r.drop_last() =~= views(parts@));
                assert(r.last() == cur0);
            }
            cur.append(piece);
            proof {
                assert(cur@ =~= cur0.push(s@[i as int]));
                assert(views(parts@).push(cur@) =~= spec_split(pfx1, sep));
            }
        }
        i += 1;
    }
    parts.push(cur);
    proof {
        assert(s@.subrange(0, n as int) =~= s@);
        assert(views(parts@) =~= spec_split(s@, sep));
    }
    parts
}

/// A line with a trailing carriage return loses it; any other line is
/// kept whole.
pub open spec fn strip_cr(l: Seq<char>) -> Seq<char> {
    if l.len() > 0 && l.last() == '\r' {
        l.drop_last()
    } else {
        l
    }
}

/// The lines of a report: the parts around each newline. A part that a
/// newline ended loses a trailing carriage return; an unterminated final
/// part keeps its characters.
pub open spec fn spec_lines(s: Seq<char>) -> Seq<Seq<char>> {
    let parts = spec_split(s, '\n');
    parts.map(
        |i: int, l: Seq<char>|
            if i < parts.len() - 1 {
                strip_cr(l)
            } else {
                l
            },
    )
}

/// Splits a report into lines.
pub(crate) fn split_lines(s: &str) -> (lines: Vec<String>)
    ensures
        views(lines@) == spec_lines(s@),
{
    let raw = split_on_char(s, '\n');
    let mut lines: Vec<String> = Vec::new();
    let mut i: usize = 0;
    while i < raw.len()
        invariant
            i <= raw.len(),
            views(raw@) == spec_split(s@, '\n'),
            views(lines@) =~= spec_lines(s@).subrange(0, i as int),
        decreases raw.len() - i,
    {
        let line = &raw[i];
        proof {
            assert(line@ == views(raw@)[i as int]);
            if i + 1 < raw@.len() {
                assert(spec_lines(s@)[i as int] == strip_cr(spec_split(s@, '\n')[i as int]));
            } else {
                assert(spec_lines(s@)[i as int] == spec_split(s@, '\n')[i as int]);
            }
        }
        let n = line.as_str().unicode_len();
        let next: String = if i + 1 < raw.len() && n > 0 && line.as_str().get_char(n - 1)
            == '\r' {
            let clipped = line.as_str().substring_char(0, n - 1);
            proof {
                assert(clipped@ =~= line@.drop_last());
            }
            String::from_str(clipped)
        } else {
            line.clone()
        };
        proof {
            assert(next@ == spec_lines(s@)[i as int]);
        }
        let ghost nv = next@;
        let ghost lv = lines@;
        lines.push(next);
        proof {
            assert(views(lv).len() == i as int);
            assert(lv.len() == i as int);
            assert forall|j: int| 0 <= j < i + 1 implies views(lines@)[j] == spec_lines(
                s@,
            ).subrange(0, i + 1 as int)[j] by {
                if j < i {
                    assert(lines@[j] == lv[j]);
                    assert(views(lines@)[j] == lv[j]@);
                    assert(views(lv)[j] == lv[j]@);
                    assert(views(lv)[j] == spec_lines(s@).subrange(0, i as int)[j]);
                } else {
                    assert(lines@[j]@ == nv);
                }
            }
            assert(views(lines@) =~= spec_lines(s@).subrange(0, i + 1 as int));
        }
        i += 1;
    }
    proof {
        assert(spec_lines(s@).subrange(0, spec_lines(s@).len() as int) =~= spec_lines(s@));
    }
    lines
}

/// Whether a character is white space: the Unicode white-space set that
/// key trimming removes.
pub open spec fn is_blank(c: char) -> bool {
    c == ' ' || c == '\t' || c == '\n' || c == '\r' || c == '\u{b}' || c == '\u{c}' || c
        == '\u{85}' || c == '\u{a0}' || c == '\u{1680}' || ('\u{2000}' <= c && c <= '\u{200a}')
        || c == '\u{2028}' || c == '\u{2029}' || c == '\u{202f}' || c == '\u{205f}' || c
        == '\u{3000}'
}

/// Tells whether a character is white space.
fn is_blank_exec(c: char) -> (r: bool)
    ensures
        r == is_blank(c),
{
    c == ' ' || c == '\t' || c == '\n' || c == '\r' || c == '\u{b}' || c == '\u{c}' || c
        == '\u{85}' || c == '\u{a0}' || c == '\u{1680}' || ('\u{2000}' <= c && c <= '\u{200a}')
        || c == '\u{2028}' || c == '\u{2029}' || c == '\u{202f}' || c == '\u{205f}' || c
        == '\u{3000}'
}

/// The sequence with its leading blanks removed.
pub open spec fn trim_start(s: Seq<char>) -> Seq<char>
    decreases s.len(),
{
    if s.len() > 0 && is_blank(s.first()) {
        trim_start(s.drop_first())
    } else {
        s
    }
}

/// Removes leading blanks from a string.
pub(crate) fn trim_start_exec(s: &str) -> (r: String)
    ensures
        r@ == trim_start(s@),
{
    let n = s.unicode_len();
    let mut k: usize = 0;
    proof {
        assert(s@.skip(0) =~= s@);
    }
    while k < n
        invariant
            k <= n,
            n == s@.len(),
            trim_start(s@) == trim_start(s@.skip(k as int)),
        ensures
            k <= n,
            n == s@.len(),
            trim_start(s@) == trim_start(s@.skip(k as int)),
            k == n || !is_blank(s@[k as int]),
        decreases n - k,
    {
        let c = s.get_char(k);
        if !is_blank_exec(c) {
            break;
        }
        proof {
            assert(s@.skip(k + 1 as int) =~= s@.skip(k as int).drop_first());
        }
        k += 1;
    }
    let tail = s.substring_char(k, n);
    proof {
        assert(tail@ =~= s@.skip(k as int));
        if k < n {
            assert(s@.skip(k as int).first() == s@[k as int]);
            assert(trim_start(s@.skip(k as int)) == s@.skip(k as int));
        } else {
            assert(s@.skip(k as int) =~= Seq::<char>::empty());
        }
    }
    String::from_str(tail)
}

} // verus!

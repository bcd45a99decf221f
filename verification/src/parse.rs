//! Comma-separated fields.
//!
//! Market creation takes its outcome labels and odds as comma-separated
//! strings.  This module defines the exact meaning of that format —
//! [`split_of`] for the fields and [`trim_of`] for the whitespace trimming
//! applied to each field — and a verified splitter, [`split_csv`].

use vstd::prelude::*;
use vstd::string::StrSliceExecFns;
use vstd::string::StringExecFns;

verus! {

/// `c` is ASCII whitespace removed by trimming.
pub open spec fn is_space(c: char) -> bool {
    c == ' ' || c == '\t' || c == '\n' || c == '\r'
}

/// `s` with leading and trailing whitespace removed.
pub open spec fn trim_of(s: Seq<char>) -> Seq<char>
    decreases s.len(),
{
    if s.len() == 0 {
        s
    } else if is_space(s[0]) {
        trim_of(s.drop_first())
    } else if is_space(s.last()) {
        trim_of(s.drop_last())
    } else {
        s
    }
}

/// The comma-separated fields of `s`, in order.  A string with no comma is
/// the single field `[s]`; every comma separates two fields, so `n` commas
/// give `n + 1` fields, possibly empty.
pub open spec fn split_of(s: Seq<char>) -> Seq<Seq<char>>
    decreases s.len(),
{
    if s.len() == 0 {
        seq![Seq::<char>::empty()]
    } else if s[0] == ',' {
        seq![Seq::<char>::empty()] + split_of(s.drop_first())
    } else {
        let rest = split_of(s.drop_first());
        rest.update(0, seq![s[0]] + rest[0])
    }
}

/// Each field of `fs`, trimmed.
pub open spec fn trim_all(fs: Seq<Seq<char>>) -> Seq<Seq<char>> {
    fs.map_values(|f: Seq<char>| trim_of(f))
}

/// The fields of `s`, each trimmed: what market creation parses.
pub open spec fn fields_of(s: Seq<char>) -> Seq<Seq<char>> {
    trim_all(split_of(s))
}

/// Trimming distributes over appending one field.
proof fn lemma_trim_all_push(fs: Seq<Seq<char>>, x: Seq<char>)
    ensures
        trim_all(fs.push(x)) =~= trim_all(fs).push(trim_of(x)),
{
    assert(forall|k: int| 0 <= k < fs.len() ==> #[trigger] fs.push(x)[k] == fs[k]);
    assert(fs.push(x)[fs.len() as int] == x);
}

/// Splitting yields at least one field.
pub proof fn lemma_split_nonempty(s: Seq<char>)
    ensures
        split_of(s).len() >= 1,
    decreases s.len(),
{
    if s.len() > 0 {
        lemma_split_nonempty(s.drop_first());
    }
}

/// A comma-free string is a single field.
proof fn lemma_split_no_comma(s: Seq<char>)
    requires
        forall|i: int| 0 <= i < s.len() ==> s[i] != ',',
    ensures
        split_of(s) =~= seq![s],
    decreases s.len(),
{
    if s.len() == 0 {
        assert(split_of(s) == seq![Seq::<char>::empty()]);
        assert(s =~= Seq::<char>::empty());
    } else {
        assert(forall|i: int|
            0 <= i < s.len() - 1 ==> #[trigger] s.drop_first()[i] == s[i + 1]);
        lemma_split_no_comma(s.drop_first());
        lemma_split_nonempty(s.drop_first());
        assert(seq![s[0]] + s.drop_first() =~= s);
        assert(split_of(s) =~= seq![s]);
    }
}

/// The first comma of `s`, at position `i`, splits off the field `s[..i]`.
proof fn lemma_split_head(s: Seq<char>, i: int)
    requires
        0 <= i < s.len(),
        s[i] == ',',
        forall|j: int| 0 <= j < i ==> s[j] != ',',
    ensures
        split_of(s) =~= seq![s.subrange(0, i)] + split_of(s.subrange(i + 1, s.len() as int)),
    decreases i,
{
    if i == 0 {
        assert(s.subrange(0, 0) =~= Seq::<char>::empty());
        assert(s.subrange(1, s.len() as int) =~= s.drop_first());
    } else {
        let d = s.drop_first();
        assert(forall|j: int| 0 <= j < d.len() ==> #[trigger] d[j] == s[j + 1]);
        lemma_split_head(d, i - 1);
        lemma_split_nonempty(d.subrange(i, d.len() as int));
        assert(d.subrange(0, i - 1) =~= s.subrange(1, i));
        assert(d.subrange(i, d.len() as int) =~= s.subrange(i + 1, s.len() as int));
        assert(seq![s[0]] + s.subrange(1, i) =~= s.subrange(0, i));
        assert(split_of(s) =~= seq![s.subrange(0, i)] + split_of(
            s.subrange(i + 1, s.len() as int),
        ));
    }
}

/// An untrimmed or trimmed-equal view: a string whose ends hold no
/// whitespace trims to itself.
proof fn lemma_trim_id(s: Seq<char>)
    requires
        s.len() == 0 || (!is_space(s[0]) && !is_space(s.last())),
    ensures
        trim_of(s) == s,
{
}

/// Dropping a trailing space does not change the trimmed value.
proof fn lemma_trim_drop_last(s: Seq<char>)
    requires
        s.len() > 0,
        is_space(s.last()),
    ensures
        trim_of(s) == trim_of(s.drop_last()),
    decreases s.len(),
{
    if s.len() == 1 {
        assert(s.drop_first() =~= s.drop_last());
        assert(s.drop_last().len() == 0);
    } else if is_space(s[0]) {
        let d = s.drop_first();
        assert(d.last() == s.last());
        lemma_trim_drop_last(d);
        assert(d.drop_last() =~= s.drop_last().drop_first());
        assert(s.drop_last()[0] == s[0]);
        assert(s.drop_last().len() > 0);
        assert(trim_of(s.drop_last()) == trim_of(s.drop_last().drop_first()));
    }
}

/// Whitespace test on one character.
fn is_space_char(c: char) -> (r: bool)
    ensures
        r == is_space(c),
{
    c == ' ' || c == '\t' || c == '\n' || c == '\r'
}

/// Trim the character range `s[from..to]` into a fresh string.
fn trim_range(s: &str, from: usize, to: usize) -> (t: String)
    requires
        from <= to <= s@.len(),
    ensures
        t@ == trim_of(s@.subrange(from as int, to as int)),
{
    let ghost whole = s@.subrange(from as int, to as int);
    let mut a = from;
    while a < to && is_space_char(s.get_char(a))
        invariant
            from <= a <= to <= s@.len(),
            trim_of(whole) == trim_of(s@.subrange(a as int, to as int)),
            whole == s@.subrange(from as int, to as int),
        decreases to - a,
    {
        proof {
            let cur = s@.subrange(a as int, to as int);
            assert(cur[0] == s@[a as int]);
            assert(cur.drop_first() =~= s@.subrange(a as int + 1, to as int));
        }
        a = a + 1;
    }
    let mut b = to;
    while b > a && is_space_char(s.get_char(b - 1))
        invariant
            from <= a <= b <= to <= s@.len(),
            trim_of(whole) == trim_of(s@.subrange(a as int, b as int)),
            whole == s@.subrange(from as int, to as int),
            a < to ==> !is_space(s@[a as int]),
        decreases b,
    {
        proof {
            let cur = s@.subrange(a as int, b as int);
            assert(cur.last() == s@[b - 1]);
            if is_space(cur[0]) {
            } else {
                lemma_trim_drop_last(cur);
            }
            assert(cur.drop_last() =~= s@.subrange(a as int, b as int - 1));
        }
        b = b - 1;
    }
    proof {
        let cur = s@.subrange(a as int, b as int);
        if a == b {
            assert(cur.len() == 0);
        } else {
            assert(cur[0] == s@[a as int]);
            assert(cur.last() == s@[b - 1]);
        }
        lemma_trim_id(cur);
    }
    let part = s.substring_char(a, b);
    String::from_str(part)
}

/// Split `s` at every comma and trim each field.
///
/// Returns exactly the fields [`fields_of`] describes, in order.
pub fn split_csv(s: &str) -> (parts: Vec<String>)
    ensures
        parts.deep_view() == fields_of(s@),
        parts.deep_view().len() >= 1,
{
    let n = s.unicode_len();
    let mut parts: Vec<String> = Vec::new();
    let ghost mut done: Seq<Seq<char>> = Seq::empty();
    let mut start: usize = 0;
    let mut i: usize = 0;
    proof {
        assert(s@.subrange(0, n as int) =~= s@);
        assert(done + split_of(s@) =~= split_of(s@));
        assert(parts.deep_view() =~= trim_all(done));
    }
    while i < n
        invariant
            start <= i <= n,
            n == s@.len(),
            forall|j: int| start <= j < i ==> s@[j] != ',',
            split_of(s@) == done + split_of(s@.subrange(start as int, n as int)),
            parts.deep_view() == trim_all(done),
        decreases n - i,
    {
        let c = s.get_char(i);
        if c == ',' {
            let field = trim_range(s, start, i);
            let ghost pd = parts.deep_view();
            let ghost piece = s@.subrange(start as int, i as int);
            proof {
                let tail = s@.subrange(start as int, n as int);
                assert(forall|j: int|
                    0 <= j < tail.len() ==> #[trigger] tail[j] == s@[j + start]);
                lemma_split_head(tail, i - start);
                assert(tail.subrange(0, i - start) =~= piece);
                assert(tail.subrange(i - start + 1, tail.len() as int) =~= s@.subrange(
                    i as int + 1,
                    n as int,
                ));
                assert(done + split_of(tail) =~= done.push(piece) + split_of(
                    s@.subrange(i as int + 1, n as int),
                ));
            }
            parts.push(field);
            proof {
                done = done.push(piece);
                lemma_trim_all_push(done.drop_last(), piece);
                assert(done.drop_last() =~= done.subrange(0, done.len() - 1));
                assert(done.drop_last().push(piece) =~= done);
                assert(parts.deep_view() =~= pd.push(field@));
                assert(parts.deep_view() =~= trim_all(done));
            }
            start = i + 1;
        }
        i = i + 1;
    }
    let field = trim_range(s, start, n);
    let ghost pd = parts.deep_view();
    let ghost piece = s@.subrange(start as int, n as int);
    proof {
        let tail = s@.subrange(start as int, n as int);
        assert(forall|j: int| 0 <= j < tail.len() ==> #[trigger] tail[j] == s@[j + start]);
        lemma_split_no_comma(tail);
        assert(split_of(s@) =~= done.push(piece));
    }
    parts.push(field);
    proof {
        lemma_trim_all_push(done, piece);
        assert(parts.deep_view() =~= pd.push(field@));
        assert(parts.deep_view() =~= trim_all(done.push(piece)));
        assert(parts.deep_view() == fields_of(s@));
    }
    parts
}

} // verus!

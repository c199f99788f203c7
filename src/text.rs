//! Character-level text handling: reading a `str` into characters, splitting
//! on a separator, and writing characters of the stored-file alphabet.
use vstd::prelude::*;
use vstd::std_specs::iter::IteratorSpec;

verus! {

/// The pieces of `s` between occurrences of `sep`, in order; there is always
/// at least one piece, and `k` separators give `k + 1` pieces.
pub open spec fn split_on(s: Seq<char>, sep: char) -> Seq<Seq<char>>
    decreases s.len(),
{
    if s.len() == 0 {
        seq![Seq::empty()]
    } else {
        let rest = split_on(s.drop_last(), sep);
        if s.last() == sep {
            rest.push(Seq::empty())
        } else {
            rest.update(rest.len() - 1, rest.last().push(s.last()))
        }
    }
}

pub open spec fn free_of(s: Seq<char>, c: char) -> bool {
    forall|i: int| 0 <= i < s.len() ==> #[trigger] s[i] != c
}

/// The views of a sequence of character vectors.
pub open spec fn views(v: Seq<Vec<char>>) -> Seq<Seq<char>> {
    v.map_values(|x: Vec<char>| x@)
}

/// The characters that stored text is made of.
pub open spec fn is_wire_char(c: char) -> bool {
    ('0' <= c && c <= '9') || c == ',' || c == '.' || c == '-' || c == '\n' || c == 'B' || c == 'S'
}

pub proof fn lemma_split_len(s: Seq<char>, sep: char)
    ensures
        split_on(s, sep).len() >= 1,
    decreases s.len(),
{
    if s.len() > 0 {
        lemma_split_len(s.drop_last(), sep);
    }
}

/// Text without the separator is one piece.
pub proof fn lemma_split_single(b: Seq<char>, sep: char)
    requires
        free_of(b, sep),
    ensures
        split_on(b, sep) == seq![b],
    decreases b.len(),
{
    if b.len() == 0 {
        assert(b =~= Seq::<char>::empty());
    } else {
        lemma_split_single(b.drop_last(), sep);
        assert(split_on(b, sep) == split_on(b.drop_last(), sep).update(
            0,
            b.drop_last().push(b.last()),
        ));
        assert(b.last() != sep);
        assert(b.drop_last().push(b.last()) =~= b);
        assert(seq![b.drop_last()].update(0, b.drop_last().push(b.last())) =~= seq![b]);
    }
}

/// A separator followed by text without it adds that text as one more piece.
pub proof fn lemma_split_extend(a: Seq<char>, b: Seq<char>, sep: char)
    requires
        free_of(b, sep),
    ensures
        split_on(a.push(sep) + b, sep) == split_on(a, sep).push(b),
    decreases b.len(),
{
    lemma_split_len(a, sep);
    if b.len() == 0 {
        assert(a.push(sep) + b =~= a.push(sep));
        assert(a.push(sep).drop_last() =~= a);
        assert(b =~= Seq::<char>::empty());
    } else {
        lemma_split_extend(a, b.drop_last(), sep);
        let t = a.push(sep) + b;
        assert(t.drop_last() =~= a.push(sep) + b.drop_last());
        assert(t.last() == b.last());
        assert(split_on(t, sep) == split_on(a.push(sep) + b.drop_last(), sep).update(
            split_on(a, sep).len() as int,
            b.drop_last().push(b.last()),
        ));
        assert(b.last() != sep);
        assert(b.drop_last().push(b.last()) =~= b);
        assert(split_on(a, sep).push(b.drop_last()).update(
            split_on(a, sep).len() as int,
            b.drop_last().push(b.last()),
        ) =~= split_on(a, sep).push(b));
    }
}

/// The characters of `s`, in order.
pub fn chars_of(s: &str) -> (r: Vec<char>)
    ensures
        r@ == s@,
{
    let mut out: Vec<char> = Vec::new();
    let mut it = s.chars();
    let ghost all = s@;
    proof {
        broadcast use vstd::string::group_string_axioms;
    }
    loop
        invariant
            it.remaining() == all.subrange(out@.len() as int, all.len() as int),
            out@ == all.subrange(0, out@.len() as int),
            out@.len() <= all.len(),
        ensures
            out@ =~= all,
        decreases all.len() - out@.len(),
    {
        match it.next() {
            Some(c) => {
                out.push(c);
            },
            None => {
                break ;
            },
        }
    }
    out
}

/// Splits `s` at every occurrence of `sep`.
pub fn split_chars(s: &[char], sep: char) -> (r: Vec<Vec<char>>)
    ensures
        views(r@) == split_on(s@, sep),
{
    let mut pieces: Vec<Vec<char>> = Vec::new();
    let mut cur: Vec<char> = Vec::new();
    let mut i: usize = 0;
    while i < s.len()
        invariant
            0 <= i <= s@.len(),
            views(pieces@).push(cur@) == split_on(s@.subrange(0, i as int), sep),
        decreases s@.len() - i,
    {
        let c = s[i];
        let ghost before = s@.subrange(0, i as int);
        assert(s@.subrange(0, i as int + 1).drop_last() =~= before);
        assert(views(pieces@).push(cur@).last() == cur@);
        if c == sep {
            let ghost pv = pieces@;
            pieces.push(cur);
            cur = Vec::new();
            assert(views(pieces@) =~= views(pv).push(views(pieces@).last()));
            assert(views(pieces@).push(cur@) =~= split_on(s@.subrange(0, i as int + 1), sep));
        } else {
            let ghost old_cur = cur@;
            cur.push(c);
            assert(views(pieces@).push(cur@) =~= views(pieces@).push(old_cur).update(
                views(pieces@).len() as int,
                old_cur.push(c),
            ));
        }
        i = i + 1;
    }
    assert(s@.subrange(0, i as int) =~= s@);
    let ghost pv = pieces@;
    pieces.push(cur);
    assert(views(pieces@) =~= views(pv).push(cur@));
    pieces
}

/// The one-character text of a character of the stored-file alphabet.
fn wire_str(c: char) -> (r: &'static str)
    requires
        is_wire_char(c),
    ensures
        r@ == seq![c],
{
    match c {
        '0' => { proof { reveal_strlit("0"); } "0" },
        '1' => { proof { reveal_strlit("1"); } "1" },
        '2' => { proof { reveal_strlit("2"); } "2" },
        '3' => { proof { reveal_strlit("3"); } "3" },
        '4' => { proof { reveal_strlit("4"); } "4" },
        '5' => { proof { reveal_strlit("5"); } "5" },
        '6' => { proof { reveal_strlit("6"); } "6" },
        '7' => { proof { reveal_strlit("7"); } "7" },
        '8' => { proof { reveal_strlit("8"); } "8" },
        '9' => { proof { reveal_strlit("9"); } "9" },
        ',' => { proof { reveal_strlit(","); } "," },
        '.' => { proof { reveal_strlit("."); } "." },
        '-' => { proof { reveal_strlit("-"); } "-" },
        '\n' => { proof { reveal_strlit("\n"); } "\n" },
        'B' => { proof { reveal_strlit("B"); } "B" },
        _ => { proof { reveal_strlit("S"); } "S" },
    }
}

/// A `String` holding the characters of `v`, all of the stored-file alphabet.
pub fn string_of(v: &[char]) -> (r: String)
    requires
        forall|i: int| 0 <= i < v@.len() ==> is_wire_char(#[trigger] v@[i]),
    ensures
        r@ == v@,
{
    let mut out = String::new();
    let mut i: usize = 0;
    while i < v.len()
        invariant
            0 <= i <= v@.len(),
            out@ == v@.subrange(0, i as int),
            forall|j: int| 0 <= j < v@.len() ==> is_wire_char(#[trigger] v@[j]),
        decreases v@.len() - i,
    {
        out.append(wire_str(v[i]));
        assert(v@.subrange(0, i as int + 1) =~= v@.subrange(0, i as int) + seq![v@[i as int]]);
        i = i + 1;
    }
    assert(v@.subrange(0, i as int) =~= v@);
    out
}

} // verus!

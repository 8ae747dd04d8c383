//! Text as sequences of characters: splitting, trimming, folding, ordering.

use vstd::prelude::*;

verus! {

/// `String::push`: the character is appended to the string.
pub assume_specification[ String::push ](s: &mut String, c: char)
    ensures
        final(s)@ == old(s)@.push(c),
;

/// The pieces of `s` between the separators, in order. A text without a
/// separator is one piece; the empty text is one empty piece.
pub open spec fn split(s: Seq<char>, sep: char) -> Seq<Seq<char>>
    decreases s.len(),
{
    if s.len() == 0 {
        seq![Seq::<char>::empty()]
    } else {
        let init = split(s.drop_last(), sep);
        if s.last() == sep {
            init.push(Seq::<char>::empty())
        } else {
            init.drop_last().push(init.last().push(s.last()))
        }
    }
}

/// The pieces joined with one separator between each two.
pub open spec fn join(parts: Seq<Seq<char>>, sep: char) -> Seq<char>
    decreases parts.len(),
{
    if parts.len() == 0 {
        Seq::empty()
    } else if parts.len() == 1 {
        parts[0]
    } else {
        join(parts.drop_last(), sep).push(sep) + parts.last()
    }
}

/// Where `c` occurs last in `s`; -1 if it does not.
pub open spec fn last_index(s: Seq<char>, c: char) -> int
    decreases s.len(),
{
    if s.len() == 0 {
        -1
    } else if s.last() == c {
        s.len() - 1
    } else {
        last_index(s.drop_last(), c)
    }
}

/// What follows the last `c`; all of `s` if there is none.
pub open spec fn after_last(s: Seq<char>, c: char) -> Seq<char> {
    s.skip(last_index(s, c) + 1)
}

/// `s` without the `c`s that it starts with.
pub open spec fn trim_start(s: Seq<char>, c: char) -> Seq<char>
    decreases s.len(),
{
    if s.len() > 0 && s[0] == c {
        trim_start(s.drop_first(), c)
    } else {
        s
    }
}

/// `s` without the `c`s that it ends with.
pub open spec fn trim_end(s: Seq<char>, c: char) -> Seq<char>
    decreases s.len(),
{
    if s.len() > 0 && s.last() == c {
        trim_end(s.drop_last(), c)
    } else {
        s
    }
}

/// The ASCII lower-case form of a character; other characters are kept.
pub open spec fn ascii_lower(c: char) -> char {
    if 'A' <= c && c <= 'Z' {
        ((c as u8) + 32) as char
    } else {
        c
    }
}

/// The ASCII lower-case form of a text.
pub open spec fn lowered(s: Seq<char>) -> Seq<char> {
    s.map_values(|c: char| ascii_lower(c))
}

/// Lexicographic order by code point.
pub open spec fn text_le(a: Seq<char>, b: Seq<char>) -> bool
    decreases a.len(),
{
    if a.len() == 0 {
        true
    } else if b.len() == 0 {
        false
    } else if a[0] != b[0] {
        a[0] < b[0]
    } else {
        text_le(a.drop_first(), b.drop_first())
    }
}

/// `split` gives at least one piece.
pub proof fn lemma_split_nonempty(s: Seq<char>, sep: char)
    ensures
        split(s, sep).len() >= 1,
    decreases s.len(),
{
    if s.len() > 0 {
        lemma_split_nonempty(s.drop_last(), sep);
    }
}

/// Splitting loses nothing: no piece holds the separator, and joining the
/// pieces gives the text back.
pub proof fn law_join_undoes_split(s: Seq<char>, sep: char)
    ensures
        join(split(s, sep), sep) == s,
        forall|i: int|
            0 <= i < split(s, sep).len() ==> !(#[trigger] split(s, sep)[i]).contains(sep),
    decreases s.len(),
{
    if s.len() > 0 {
        let t = s.drop_last();
        let init = split(t, sep);
        law_join_undoes_split(t, sep);
        lemma_split_nonempty(t, sep);
        assert(s == t.push(s.last()));
        if s.last() == sep {
            assert(init.push(Seq::<char>::empty()).drop_last() == init);
            assert(join(split(s, sep), sep) == t.push(sep) + Seq::<char>::empty());
            assert(t.push(sep) + Seq::<char>::empty() == s);
        } else {
            let last = init.last().push(s.last());
            let now = init.drop_last().push(last);
            assert(now.drop_last() == init.drop_last());
            if init.len() == 1 {
                assert(join(now, sep) == s);
            } else {
                assert(join(now, sep) == join(init.drop_last(), sep).push(sep) + last);
                assert(join(now, sep) == t.push(s.last()));
            }
            assert forall|i: int| 0 <= i < now.len() implies !(#[trigger] now[i]).contains(sep) by {
                if i == now.len() - 1 {
                    assert(!init.last().contains(sep));
                    if now[i].contains(sep) {
                        let k = choose|k: int| 0 <= k < now[i].len() && now[i][k] == sep;
                        if k < init.last().len() {
                            assert(init.last()[k] == sep);
                        }
                    }
                } else {
                    assert(now[i] == init[i]);
                }
            }
        }
    } else {
        assert(join(split(s, sep), sep) == s);
    }
}

/// The order of texts is total.
pub proof fn lemma_text_total(a: Seq<char>, b: Seq<char>)
    ensures
        text_le(a, b) || text_le(b, a),
    decreases a.len(),
{
    if a.len() > 0 && b.len() > 0 && a[0] == b[0] {
        lemma_text_total(a.drop_first(), b.drop_first());
    }
}

/// The order of texts is transitive.
pub proof fn lemma_text_transitive(a: Seq<char>, b: Seq<char>, c: Seq<char>)
    requires
        text_le(a, b),
        text_le(b, c),
    ensures
        text_le(a, c),
    decreases a.len(),
{
    if a.len() > 0 && b.len() > 0 && c.len() > 0 {
        if a[0] == b[0] && b[0] == c[0] {
            lemma_text_transitive(a.drop_first(), b.drop_first(), c.drop_first());
        }
    }
}

/// Only equal texts come before each other.
pub proof fn lemma_text_antisymmetric(a: Seq<char>, b: Seq<char>)
    requires
        text_le(a, b),
        text_le(b, a),
    ensures
        a == b,
    decreases a.len(),
{
    if a.len() > 0 && b.len() > 0 {
        lemma_text_antisymmetric(a.drop_first(), b.drop_first());
        assert(a == seq![a[0]] + a.drop_first());
        assert(b == seq![b[0]] + b.drop_first());
    }
}

/// A text without the separator is one piece, and whatever stands behind a separator
/// and holds none is the last piece.
pub proof fn law_split_at_separators(a: Seq<char>, b: Seq<char>, sep: char)
    requires
        !b.contains(sep),
    ensures
        split(b, sep) == seq![b],
        split(a.push(sep) + b, sep) == split(a, sep).push(b),
    decreases b.len(),
{
    let whole = a.push(sep) + b;
    if b.len() == 0 {
        assert(b =~= Seq::<char>::empty());
        assert(whole =~= a.push(sep));
        assert(a.push(sep).drop_last() =~= a);
    } else {
        let t = b.drop_last();
        assert(b.last() != sep) by {
            assert(b.contains(b[b.len() - 1]));
        }
        assert(!t.contains(sep)) by {
            if t.contains(sep) {
                let k = choose|k: int| 0 <= k < t.len() && t[k] == sep;
                assert(b[k] == sep);
            }
        }
        law_split_at_separators(a, t, sep);
        assert(whole.drop_last() =~= a.push(sep) + t);
        assert(t.push(b.last()) =~= b);
        assert(seq![t].drop_last() =~= Seq::<Seq<char>>::empty());
        assert(split(b, sep) =~= seq![b]);
        assert(split(a, sep).push(t).drop_last() =~= split(a, sep));
        assert(split(whole, sep) =~= split(a, sep).push(b));
    }
}

/// One piece joined is itself, and a further piece stands behind one separator.
pub proof fn law_join_puts_separators(parts: Seq<Seq<char>>, part: Seq<char>, sep: char)
    ensures
        join(seq![part], sep) == part,
        parts.len() > 0 ==> join(parts.push(part), sep) == join(parts, sep) + seq![sep] + part,
{
    if parts.len() > 0 {
        assert(parts.push(part).drop_last() =~= parts);
        assert(join(parts, sep).push(sep) =~= join(parts, sep) + seq![sep]);
    }
}

/// Pieces without the separator are found again after they were joined.
pub proof fn law_split_undoes_join(parts: Seq<Seq<char>>, sep: char)
    requires
        parts.len() > 0,
        forall|i: int| 0 <= i < parts.len() ==> !(#[trigger] parts[i]).contains(sep),
    ensures
        split(join(parts, sep), sep) == parts,
    decreases parts.len(),
{
    if parts.len() == 1 {
        law_split_at_separators(Seq::empty(), parts[0], sep);
        assert(parts =~= seq![parts[0]]);
    } else {
        let init = parts.drop_last();
        assert forall|i: int| 0 <= i < init.len() implies !(#[trigger] init[i]).contains(sep) by {
            assert(init[i] == parts[i]);
        }
        law_split_undoes_join(init, sep);
        law_split_at_separators(join(init, sep), parts[parts.len() - 1], sep);
        assert(init.push(parts.last()) =~= parts);
    }
}

/// Where a character occurs last: it stands there, and nowhere behind; and if it is said
/// to stand nowhere, it does not.
pub proof fn law_last_index(s: Seq<char>, c: char)
    ensures
        -1 <= last_index(s, c) < s.len(),
        last_index(s, c) >= 0 ==> s[last_index(s, c)] == c,
        forall|i: int| last_index(s, c) < i < s.len() ==> #[trigger] s[i] != c,
    decreases s.len(),
{
    if s.len() > 0 && s.last() != c {
        let t = s.drop_last();
        law_last_index(t, c);
        assert forall|i: int| last_index(s, c) < i < s.len() implies #[trigger] s[i] != c by {
            if i < t.len() {
                assert(t[i] == s[i]);
            }
        }
    }
}

/// What stands behind a separator and holds none is what follows the last one; a text
/// without the separator follows it as a whole.
pub proof fn law_after_last(a: Seq<char>, b: Seq<char>, c: char)
    requires
        !b.contains(c),
    ensures
        after_last(b, c) == b,
        after_last(a.push(c) + b, c) == b,
        last_index(b, c) == -1,
        last_index(a.push(c) + b, c) == a.len(),
{
    let whole = a.push(c) + b;
    law_last_index(b, c);
    law_last_index(whole, c);
    if last_index(b, c) >= 0 {
        assert(b.contains(b[last_index(b, c)]));
    }
    assert(b.skip(0) =~= b);
    let n = last_index(whole, c);
    assert(whole[a.len() as int] == c);
    if n > a.len() {
        assert(whole[n] == b[n - a.len() - 1]);
        assert(b.contains(b[n - a.len() - 1]));
    }
    assert(whole.skip(a.len() as int + 1) =~= b);
}

/// Trimming takes the character from an end as often as it stands there, and nothing
/// else: what is left does not begin, or end, with it.
pub proof fn law_trimming(s: Seq<char>, c: char)
    ensures
        ({
            let rest = trim_start(s, c);
            let n = s.len() - rest.len();
            &&& 0 <= n
            &&& rest == s.skip(n)
            &&& forall|i: int| 0 <= i < n ==> #[trigger] s[i] == c
            &&& rest.len() > 0 ==> rest[0] != c
        }),
        ({
            let rest = trim_end(s, c);
            &&& rest.len() <= s.len()
            &&& rest == s.take(rest.len() as int)
            &&& forall|i: int| rest.len() <= i < s.len() ==> #[trigger] s[i] == c
            &&& rest.len() > 0 ==> rest[rest.len() - 1] != c
        }),
    decreases s.len(),
{
    assert(s.skip(0) =~= s);
    assert(s.take(s.len() as int) =~= s);
    if s.len() > 0 && s[0] == c {
        let t = s.drop_first();
        law_trimming(t, c);
        let n = s.len() - trim_start(s, c).len();
        assert(t.skip(n - 1) =~= s.skip(n));
        assert forall|i: int| 0 <= i < n implies #[trigger] s[i] == c by {
            if i > 0 {
                assert(t[i - 1] == s[i]);
            }
        }
    }
    if s.len() > 0 && s.last() == c {
        let t = s.drop_last();
        law_trimming(t, c);
        let n = trim_end(s, c).len() as int;
        assert(t.take(n) =~= s.take(n));
        assert forall|i: int| n <= i < s.len() implies #[trigger] s[i] == c by {
            if i < t.len() {
                assert(t[i] == s[i]);
            }
        }
    }
}

/// Folding changes the letters `A` to `Z`, each to its small form, and nothing else.
pub proof fn law_lowered(s: Seq<char>, i: int)
    requires
        0 <= i < s.len(),
    ensures
        lowered(s).len() == s.len(),
        65 <= s[i] as int <= 90 ==> lowered(s)[i] as int == s[i] as int + 32,
        !(65 <= s[i] as int <= 90) ==> lowered(s)[i] == s[i],
        lowered(lowered(s)) == lowered(s),
{
    assert forall|k: int| 0 <= k < s.len() implies lowered(lowered(s))[k] == #[trigger] lowered(
        s,
    )[k] by {
        assert(lowered(s)[k] == ascii_lower(s[k]));
    }
    assert(lowered(lowered(s)) =~= lowered(s));
}

/// Texts are ordered by the first character in which they differ; a text comes before
/// those that it is the beginning of.
pub proof fn law_text_order(p: Seq<char>, a: Seq<char>, b: Seq<char>)
    ensures
        text_le(p, p + a),
        a.len() > 0 ==> !text_le(p + a, p),
        a.len() > 0 && b.len() > 0 && (a[0] as int) < b[0] as int ==> text_le(p + a, p + b) && !text_le(
            p + b,
            p + a,
        ),
    decreases p.len(),
{
    if p.len() > 0 {
        law_text_order(p.drop_first(), a, b);
        assert((p + a).drop_first() =~= p.drop_first() + a);
        assert((p + b).drop_first() =~= p.drop_first() + b);
    } else {
        assert(p + a =~= a);
        assert(p + b =~= b);
    }
}

/// The characters of a text.
pub fn chars_of(s: &str) -> (v: Vec<char>)
    ensures
        v@ == s@,
{
    let mut v: Vec<char> = Vec::new();
    for c in it: s.chars()
        invariant
            v@ == it.seq().take(it.index() as int),
            it.seq() == s@,
    {
        v.push(c);
    }
    v
}

/// The text made of the characters from `from` on.
pub fn text_from(v: &Vec<char>, from: usize) -> (s: String)
    requires
        from <= v@.len(),
    ensures
        s@ == v@.skip(from as int),
{
    text_range(v, from, v.len())
}

/// The text made of the characters from `from` up to `to`.
pub fn text_range(v: &Vec<char>, from: usize, to: usize) -> (s: String)
    requires
        from <= to <= v@.len(),
    ensures
        s@ == v@.subrange(from as int, to as int),
{
    let mut s = String::new();
    let mut i: usize = from;
    while i < to
        invariant
            from <= i <= to <= v@.len(),
            s@ == v@.subrange(from as int, i as int),
        decreases to - i,
    {
        s.push(v[i]);
        i += 1;
    }
    s
}

/// Whether two texts are the same.
pub fn same_text(a: &str, b: &str) -> (r: bool)
    ensures
        r == (a@ == b@),
{
    a.to_owned() == b.to_owned()
}

/// Whether two sequences of characters are the same.
pub fn same_chars(a: &Vec<char>, b: &Vec<char>) -> (r: bool)
    ensures
        r == (a@ == b@),
{
    if a.len() != b.len() {
        return false;
    }
    let mut i: usize = 0;
    while i < a.len()
        invariant
            i <= a@.len() == b@.len(),
            forall|k: int| 0 <= k < i ==> a@[k] == b@[k],
        decreases a@.len() - i,
    {
        if a[i] != b[i] {
            return false;
        }
        i += 1;
    }
    assert(a@ =~= b@);
    true
}

/// The pieces of a text between the separators.
pub fn split_chars(v: &Vec<char>, sep: char) -> (parts: Vec<Vec<char>>)
    ensures
        parts@.len() == split(v@, sep).len(),
        forall|i: int| 0 <= i < parts@.len() ==> (#[trigger] parts@[i])@ == split(v@, sep)[i],
{
    let mut parts: Vec<Vec<char>> = Vec::new();
    let mut piece: Vec<char> = Vec::new();
    let mut i: usize = 0;
    assert(v@.take(0) == Seq::<char>::empty());
    while i < v.len()
        invariant
            i <= v@.len(),
            parts@.len() + 1 == split(v@.take(i as int), sep).len(),
            forall|k: int|
                0 <= k < parts@.len() ==> (#[trigger] parts@[k])@ == split(
                    v@.take(i as int),
                    sep,
                )[k],
            piece@ == split(v@.take(i as int), sep).last(),
        decreases v@.len() - i,
    {
        assert(v@.take(i + 1).drop_last() == v@.take(i as int));
        if v[i] == sep {
            parts.push(piece);
            piece = Vec::new();
        } else {
            piece.push(v[i]);
        }
        i += 1;
    }
    assert(v@.take(i as int) == v@);
    parts.push(piece);
    parts
}

/// Where `c` occurs last.
pub fn find_last(v: &Vec<char>, c: char) -> (r: Option<usize>)
    ensures
        match r {
            Some(i) => i == last_index(v@, c) && i < v@.len() && i < usize::MAX,
            None => last_index(v@, c) == -1,
        },
{
    let mut i: usize = v.len();
    assert(v@.take(i as int) == v@);
    while i > 0
        invariant
            i <= v@.len(),
            last_index(v@, c) == last_index(v@.take(i as int), c),
        decreases i,
    {
        assert(v@.take(i as int).drop_last() == v@.take(i - 1));
        if v[i - 1] == c {
            return Some(i - 1);
        }
        i -= 1;
    }
    None
}

/// One character in its ASCII lower-case form.
pub fn lower_char(c: char) -> (r: char)
    ensures
        r == ascii_lower(c),
{
    if 'A' <= c && c <= 'Z' {
        ((c as u8) + 32) as char
    } else {
        c
    }
}

/// The ASCII lower-case form of a text.
pub fn lower_text(v: &Vec<char>) -> (r: Vec<char>)
    ensures
        r@ == lowered(v@),
{
    let mut r: Vec<char> = Vec::new();
    let mut i: usize = 0;
    while i < v.len()
        invariant
            i <= v@.len(),
            r@ == lowered(v@.take(i as int)),
        decreases v@.len() - i,
    {
        r.push(lower_char(v[i]));
        i += 1;
        assert(r@ =~= lowered(v@.take(i as int)));
    }
    assert(v@.take(i as int) == v@);
    r
}

/// Whether `a` comes no later than `b` in the order of texts.
pub fn no_later(a: &Vec<char>, b: &Vec<char>) -> (r: bool)
    ensures
        r == text_le(a@, b@),
{
    let mut i: usize = 0;
    assert(a@.skip(0) == a@);
    assert(b@.skip(0) == b@);
    while i < a.len()
        invariant
            i <= a@.len(),
            i <= b@.len(),
            text_le(a@, b@) == text_le(a@.skip(i as int), b@.skip(i as int)),
        decreases a@.len() - i,
    {
        if i >= b.len() {
            return false;
        }
        if a[i] != b[i] {
            return a[i] < b[i];
        }
        assert(a@.skip(i as int).drop_first() == a@.skip(i + 1));
        assert(b@.skip(i as int).drop_first() == b@.skip(i + 1));
        i += 1;
    }
    true
}

} // verus!

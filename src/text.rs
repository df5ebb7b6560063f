use vstd::prelude::*;

verus! {

/// What `str::to_uppercase` makes of a string.
pub uninterp spec fn upper_of(s: Seq<char>) -> Seq<char>;

/// What `str::to_lowercase` makes of a string.
pub uninterp spec fn lower_of(s: Seq<char>) -> Seq<char>;

/// Relies on `str::chars`: the characters of `s`, in order.
#[verifier::external_body]
pub(crate) fn chars_of(s: &str) -> (r: Vec<char>)
    ensures
        r@ == s@,
{
    s.chars().collect()
}

/// Relies on `String: FromIterator<char>`: the string made of exactly these characters.
#[verifier::external_body]
pub(crate) fn string_of(c: &Vec<char>) -> (r: String)
    ensures
        r@ == c@,
{
    c.iter().collect()
}

/// Relies on `str::to_uppercase`: the result depends on the characters alone.
#[verifier::external_body]
pub(crate) fn to_upper(s: &str) -> (r: String)
    ensures
        r@ == upper_of(s@),
{
    s.to_uppercase()
}

/// Relies on `str::to_lowercase`: the result depends on the characters alone.
#[verifier::external_body]
pub(crate) fn to_lower(s: &str) -> (r: String)
    ensures
        r@ == lower_of(s@),
{
    s.to_lowercase()
}

/// Upper-cases a character sequence (see `upper_of`).
pub fn upper_chars(s: &Vec<char>) -> (r: Vec<char>)
    ensures
        r@ == upper_of(s@),
{
    let t = string_of(s);
    chars_of(to_upper(t.as_str()).as_str())
}

/// Lower-cases a character sequence (see `lower_of`).
pub fn lower_chars(s: &Vec<char>) -> (r: Vec<char>)
    ensures
        r@ == lower_of(s@),
{
    let t = string_of(s);
    chars_of(to_lower(t.as_str()).as_str())
}

/// `p` stands at position `i` of `s`.
pub open spec fn occurs_at(s: Seq<char>, i: int, p: Seq<char>) -> bool {
    0 <= i && i + p.len() <= s.len() && s.subrange(i, i + p.len()) == p
}

/// The pieces of `s` between the occurrences of `sep`, scanned from the left
/// without overlap; an empty separator splits nothing.
pub open spec fn split_on(s: Seq<char>, sep: Seq<char>) -> Seq<Seq<char>>
    decreases s.len(),
{
    if sep.len() == 0 || s.len() < sep.len() {
        seq![s]
    } else if occurs_at(s, 0, sep) {
        seq![Seq::<char>::empty()] + split_on(s.subrange(sep.len() as int, s.len() as int), sep)
    } else {
        prepend_piece(seq![s[0]], split_on(s.drop_first(), sep))
    }
}

/// The character sequences that a list of character vectors holds.
pub open spec fn pieces(v: Seq<Vec<char>>) -> Seq<Seq<char>> {
    v.map_values(|x: Vec<char>| x@)
}

/// `parts` with `c` put in front of its first piece.
pub open spec fn prepend_piece(c: Seq<char>, parts: Seq<Seq<char>>) -> Seq<Seq<char>> {
    parts.update(0, c + parts[0])
}

/// The pieces, with `sep` between each two of them.
pub open spec fn join_with(parts: Seq<Seq<char>>, sep: Seq<char>) -> Seq<char>
    decreases parts.len(),
{
    if parts.len() == 0 {
        Seq::empty()
    } else if parts.len() == 1 {
        parts[0]
    } else {
        join_with(parts.drop_last(), sep) + sep + parts.last()
    }
}

pub proof fn lemma_split_nonempty(s: Seq<char>, sep: Seq<char>)
    ensures
        split_on(s, sep).len() >= 1,
    decreases s.len(),
{
    if sep.len() == 0 || s.len() < sep.len() {
    } else if occurs_at(s, 0, sep) {
        lemma_split_nonempty(s.subrange(sep.len() as int, s.len() as int), sep);
    } else {
        lemma_split_nonempty(s.drop_first(), sep);
    }
}

proof fn lemma_join_cons(a: Seq<char>, r: Seq<Seq<char>>, sep: Seq<char>)
    requires
        r.len() >= 1,
    ensures
        join_with(seq![a] + r, sep) == a + sep + join_with(r, sep),
    decreases r.len(),
{
    let x = seq![a] + r;
    assert(x.last() == r.last());
    if r.len() == 1 {
        assert(x.drop_last() =~= seq![a]);
        assert(join_with(seq![a], sep) == a);
        assert(join_with(r, sep) == r[0]);
    } else {
        assert(x.drop_last() =~= seq![a] + r.drop_last());
        lemma_join_cons(a, r.drop_last(), sep);
        assert(a + sep + join_with(r.drop_last(), sep) + sep + r.last() =~= a + sep + (join_with(
            r.drop_last(),
            sep,
        ) + sep + r.last()));
    }
}

proof fn lemma_join_prepend(c: Seq<char>, r: Seq<Seq<char>>, sep: Seq<char>)
    requires
        r.len() >= 1,
    ensures
        join_with(prepend_piece(c, r), sep) == c + join_with(r, sep),
    decreases r.len(),
{
    let x = prepend_piece(c, r);
    if r.len() > 1 {
        assert(x.drop_last() =~= prepend_piece(c, r.drop_last()));
        lemma_join_prepend(c, r.drop_last(), sep);
        assert(c + join_with(r.drop_last(), sep) + sep + r.last() =~= c + (join_with(r.drop_last(), sep)
            + sep + r.last()));
    }
}

/// Joining the pieces of a split with the same separator gives back the
/// text that was split.
pub proof fn lemma_split_join(s: Seq<char>, sep: Seq<char>)
    ensures
        join_with(split_on(s, sep), sep) == s,
    decreases s.len(),
{
    if sep.len() == 0 || s.len() < sep.len() {
    } else if occurs_at(s, 0, sep) {
        let rest = s.subrange(sep.len() as int, s.len() as int);
        lemma_split_join(rest, sep);
        lemma_split_nonempty(rest, sep);
        lemma_join_cons(Seq::empty(), split_on(rest, sep), sep);
        assert(Seq::<char>::empty() + sep + rest =~= s);
    } else {
        lemma_split_join(s.drop_first(), sep);
        lemma_split_nonempty(s.drop_first(), sep);
        lemma_join_prepend(seq![s[0]], split_on(s.drop_first(), sep), sep);
        assert(seq![s[0]] + s.drop_first() =~= s);
    }
}

/// Whether `p` stands at position `i` of `s`.
pub fn occurs_at_exec(s: &Vec<char>, i: usize, p: &Vec<char>) -> (r: bool)
    requires
        i <= s.len(),
    ensures
        r == occurs_at(s@, i as int, p@),
{
    if p.len() > s.len() - i {
        return false;
    }
    let mut j: usize = 0;
    while j < p.len()
        invariant
            j <= p.len(),
            i + p.len() <= s.len(),
            s@.subrange(i as int, i + j) == p@.subrange(0, j as int),
        decreases p.len() - j,
    {
        if s[i + j] != p[j] {
            assert(s@.subrange(i as int, i + p.len())[j as int] != p@[j as int]);
            return false;
        }
        assert(s@.subrange(i as int, i + j + 1) =~= s@.subrange(i as int, i + j).push(s@[i + j]));
        assert(p@.subrange(0, j + 1) =~= p@.subrange(0, j as int).push(p@[j as int]));
        j = j + 1;
    }
    assert(p@.subrange(0, p.len() as int) =~= p@);
    true
}

/// Whether `s` begins with `p`.
pub fn has_prefix(s: &Vec<char>, p: &Vec<char>) -> (r: bool)
    ensures
        r == p@.is_prefix_of(s@),
{
    let r = occurs_at_exec(s, 0, p);
    assert(r == p@.is_prefix_of(s@)) by {
        if r {
            assert(s@.subrange(0, p@.len() as int) =~= p@);
        }
        if p@.is_prefix_of(s@) {
            assert(s@.subrange(0, p@.len() as int) =~= p@);
        }
    }
    r
}

/// The characters of `s` from position `i` on.
pub fn suffix_from(s: &Vec<char>, i: usize) -> (r: Vec<char>)
    requires
        i <= s.len(),
    ensures
        r@ == s@.subrange(i as int, s.len() as int),
{
    let mut r: Vec<char> = Vec::new();
    let mut k: usize = i;
    while k < s.len()
        invariant
            i <= k <= s.len(),
            r@ == s@.subrange(i as int, k as int),
        decreases s.len() - k,
    {
        r.push(s[k]);
        assert(s@.subrange(i as int, k + 1) =~= s@.subrange(i as int, k as int).push(s@[k as int]));
        k = k + 1;
    }
    r
}

/// Appends the characters of `b` to `a`.
pub fn append_chars(a: &mut Vec<char>, b: &Vec<char>)
    ensures
        final(a)@ == old(a)@ + b@,
{
    let mut k: usize = 0;
    while k < b.len()
        invariant
            k <= b.len(),
            a@ == old(a)@ + b@.subrange(0, k as int),
        decreases b.len() - k,
    {
        a.push(b[k]);
        assert(b@.subrange(0, k + 1) =~= b@.subrange(0, k as int).push(b@[k as int]));
        k = k + 1;
    }
    assert(b@.subrange(0, b.len() as int) =~= b@);
}

/// Splits `s` at each occurrence of `sep` (see `split_on`).
pub fn split_chars(s: &Vec<char>, sep: &Vec<char>) -> (r: Vec<Vec<char>>)
    ensures
        pieces(r@) == split_on(s@, sep@),
{
    let n = s.len();
    let mut parts: Vec<Vec<char>> = Vec::new();
    let mut cur: Vec<char> = Vec::new();
    let mut i: usize = 0;
    proof {
        assert(s@.subrange(0, n as int) =~= s@);
        lemma_split_nonempty(s@, sep@);
        assert(Seq::<char>::empty() + split_on(s@, sep@)[0] =~= split_on(s@, sep@)[0]);
        assert(prepend_piece(Seq::empty(), split_on(s@, sep@)) =~= split_on(s@, sep@));
        assert(pieces(parts@) + split_on(s@, sep@) =~= split_on(s@, sep@));
    }
    while sep.len() > 0 && sep.len() <= n - i
        invariant
            n == s.len(),
            i <= n,
            split_on(s@, sep@) == pieces(parts@) + prepend_piece(
                cur@,
                split_on(s@.subrange(i as int, n as int), sep@),
            ),
        decreases n - i,
    {
        let ghost t = s@.subrange(i as int, n as int);
        let ghost old_parts = pieces(parts@);
        if occurs_at_exec(s, i, sep) {
            let ghost rest_s = s@.subrange(i + sep@.len(), n as int);
            proof {
                assert(t.subrange(0, sep@.len() as int) =~= s@.subrange(i as int, i + sep@.len()));
                assert(t.subrange(sep@.len() as int, t.len() as int) =~= rest_s);
                lemma_split_nonempty(rest_s, sep@);
                let rest = split_on(rest_s, sep@);
                assert(split_on(t, sep@) == seq![Seq::<char>::empty()] + rest);
                assert(Seq::<char>::empty() + rest[0] =~= rest[0]);
                assert(prepend_piece(Seq::empty(), rest) =~= rest);
                assert(prepend_piece(cur@, split_on(t, sep@)) =~= seq![cur@] + rest);
            }
            let done = cur;
            parts.push(done);
            cur = Vec::new();
            i = i + sep.len();
            proof {
                let rest = split_on(rest_s, sep@);
                assert(pieces(parts@) =~= old_parts.push(done@));
                assert(old_parts + (seq![done@] + rest) =~= pieces(parts@) + rest);
                assert(prepend_piece(cur@, rest) =~= rest);
            }
        } else {
            proof {
                assert(t.subrange(0, sep@.len() as int) =~= s@.subrange(i as int, i + sep@.len()));
                assert(!occurs_at(t, 0, sep@));
                assert(t.drop_first() =~= s@.subrange(i + 1, n as int));
                lemma_split_nonempty(t.drop_first(), sep@);
                let r = split_on(t.drop_first(), sep@);
                assert(cur@ + (seq![t[0]] + r[0]) =~= cur@.push(s@[i as int]) + r[0]);
                assert(prepend_piece(cur@, prepend_piece(seq![t[0]], r)) =~= prepend_piece(
                    cur@.push(s@[i as int]),
                    r,
                ));
            }
            cur.push(s[i]);
            i = i + 1;
        }
    }
    let ghost t = s@.subrange(i as int, n as int);
    let ghost old_parts = pieces(parts@);
    let ghost old_cur = cur@;
    let tail = suffix_from(s, i);
    append_chars(&mut cur, &tail);
    proof {
        assert(split_on(t, sep@) == seq![t]);
        assert(prepend_piece(old_cur, seq![t]) =~= seq![cur@]);
    }
    let last = cur;
    parts.push(last);
    proof {
        assert(pieces(parts@) =~= old_parts.push(last@));
    }
    parts
}

/// Joins the pieces with `sep` between each two (see `join_with`).
pub fn join_chars(parts: &Vec<Vec<char>>, sep: &Vec<char>) -> (r: Vec<char>)
    ensures
        r@ == join_with(pieces(parts@), sep@),
{
    let mut r: Vec<char> = Vec::new();
    let mut k: usize = 0;
    while k < parts.len()
        invariant
            k <= parts.len(),
            r@ == join_with(pieces(parts@).subrange(0, k as int), sep@),
        decreases parts.len() - k,
    {
        let ghost pre = pieces(parts@).subrange(0, k as int);
        let ghost next = pieces(parts@).subrange(0, k + 1);
        proof {
            assert(next.drop_last() =~= pre);
            assert(next.last() == parts[k as int]@);
        }
        if k > 0 {
            append_chars(&mut r, sep);
        }
        append_chars(&mut r, &parts[k]);
        proof {
            if k == 0 {
                assert(r@ =~= next[0]);
            }
        }
        k = k + 1;
    }
    assert(pieces(parts@).subrange(0, parts.len() as int) =~= pieces(parts@));
    r
}

}

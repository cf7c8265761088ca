use vstd::prelude::*;

verus! {

/// The pieces of `s` between the occurrences of `sep`, as `str::split` yields
/// them for a `char` pattern: always at least one piece, empty pieces kept.
pub open spec fn split_on(s: Seq<char>, sep: char) -> Seq<Seq<char>>
    decreases s.len(),
{
    if s.len() == 0 {
        seq![Seq::<char>::empty()]
    } else {
        let prev = split_on(s.drop_last(), sep);
        if s.last() == sep {
            prev.push(Seq::<char>::empty())
        } else {
            prev.update(prev.len() - 1, prev.last().push(s.last()))
        }
    }
}

/// The pieces laid end to end with `sep` between each two of them.
pub open spec fn join_with(parts: Seq<Seq<char>>, sep: char) -> Seq<char>
    decreases parts.len(),
{
    if parts.len() == 0 {
        Seq::<char>::empty()
    } else if parts.len() == 1 {
        parts[0]
    } else {
        join_with(parts.drop_last(), sep).push(sep) + parts.last()
    }
}

/// Position of the first occurrence of `c` in `s`, as `str::find` reports it
/// in characters.
pub open spec fn index_of(s: Seq<char>, c: char) -> Option<int>
    decreases s.len(),
{
    if s.len() == 0 {
        None
    } else {
        match index_of(s.drop_last(), c) {
            Some(k) => Some(k),
            None => if s.last() == c {
                Some(s.len() - 1)
            } else {
                None
            },
        }
    }
}

/// `t` stands at the end of `s`.
pub open spec fn ends_with(s: Seq<char>, t: Seq<char>) -> bool {
    t.len() <= s.len() && s.subrange(s.len() - t.len(), s.len() as int) == t
}

/// The pieces of `s` between the occurrences of the text `pat`, found from
/// left to right without overlap, as `str::split` yields them for a string
/// pattern: a piece ends as soon as it ends with `pat`, which is cut off.
pub open spec fn split_on_str(s: Seq<char>, pat: Seq<char>) -> Seq<Seq<char>>
    decreases s.len(),
{
    if s.len() == 0 {
        seq![Seq::<char>::empty()]
    } else {
        let prev = split_on_str(s.drop_last(), pat);
        let last = prev.last().push(s.last());
        if ends_with(last, pat) {
            prev.update(prev.len() - 1, last.take(last.len() - pat.len())).push(
                Seq::<char>::empty(),
            )
        } else {
            prev.update(prev.len() - 1, last)
        }
    }
}

/// `pat` stands in `s` starting at position `k`.
pub open spec fn occurs_at(s: Seq<char>, pat: Seq<char>, k: int) -> bool {
    0 <= k && k + pat.len() <= s.len() && s.subrange(k, k + pat.len()) == pat
}

/// `pat` stands somewhere in `s`, as `str::contains` answers for a string pattern.
pub open spec fn has_substring(s: Seq<char>, pat: Seq<char>) -> bool {
    exists|k: int| occurs_at(s, pat, k)
}

/// A split always yields at least one piece.
pub proof fn lemma_split_nonempty(s: Seq<char>, sep: char)
    ensures
        split_on(s, sep).len() >= 1,
    decreases s.len(),
{
    if s.len() > 0 {
        lemma_split_nonempty(s.drop_last(), sep);
    }
}

proof fn lemma_join_extend_last(p: Seq<Seq<char>>, sep: char, c: char)
    requires
        p.len() >= 1,
    ensures
        join_with(p.update(p.len() - 1, p.last().push(c)), sep) == join_with(p, sep).push(c),
{
    let q = p.update(p.len() - 1, p.last().push(c));
    if p.len() > 1 {
        assert(q.drop_last() =~= p.drop_last());
        assert(join_with(q, sep) =~= join_with(p, sep).push(c));
    }
}

/// A split on a text always yields at least one piece.
pub proof fn lemma_split_on_str_nonempty(s: Seq<char>, pat: Seq<char>)
    ensures
        split_on_str(s, pat).len() >= 1,
    decreases s.len(),
{
    if s.len() > 0 {
        lemma_split_on_str_nonempty(s.drop_last(), pat);
    }
}

/// Law: joining the pieces of a split with its separator gives back the text.
pub proof fn lemma_join_split(s: Seq<char>, sep: char)
    ensures
        join_with(split_on(s, sep), sep) == s,
    decreases s.len(),
{
    if s.len() > 0 {
        let prev = split_on(s.drop_last(), sep);
        lemma_join_split(s.drop_last(), sep);
        lemma_split_nonempty(s.drop_last(), sep);
        if s.last() == sep {
            let next = prev.push(Seq::<char>::empty());
            assert(next.drop_last() =~= prev);
            assert(join_with(next, sep) =~= s);
        } else {
            lemma_join_extend_last(prev, sep, s.last());
            assert(s.drop_last().push(s.last()) =~= s);
        }
    }
}

/// Law: no piece of a split holds the separator.
pub proof fn lemma_split_pieces_lack_separator(s: Seq<char>, sep: char)
    ensures
        forall|k: int|
            0 <= k < split_on(s, sep).len() ==> !(#[trigger] split_on(s, sep)[k]).contains(sep),
    decreases s.len(),
{
    if s.len() > 0 {
        lemma_split_pieces_lack_separator(s.drop_last(), sep);
        lemma_split_nonempty(s.drop_last(), sep);
        let prev = split_on(s.drop_last(), sep);
        if s.last() != sep {
            let last = prev.last().push(s.last());
            assert forall|j: int| 0 <= j < last.len() implies last[j] != sep by {
                if j < last.len() - 1 {
                    assert(last[j] == prev[prev.len() - 1][j]);
                }
            }
        }
        assert forall|k: int|
            0 <= k < split_on(s, sep).len() implies !(#[trigger] split_on(s, sep)[k]).contains(sep) by {
            if k < prev.len() - 1 || (k == prev.len() - 1 && s.last() == sep) {
                assert(split_on(s, sep)[k] == prev[k]);
            }
        }
    }
}

/// `index_of` finds the first occurrence, and finds nothing only where there
/// is none.
pub proof fn lemma_index_of(s: Seq<char>, c: char)
    ensures
        index_of(s, c) matches Some(k) ==> 0 <= k < s.len() && s[k] == c && forall|j: int|
            0 <= j < k ==> s[j] != c,
        index_of(s, c) is None ==> forall|j: int| 0 <= j < s.len() ==> s[j] != c,
    decreases s.len(),
{
    if s.len() > 0 {
        lemma_index_of(s.drop_last(), c);
        assert forall|j: int| 0 <= j < s.len() - 1 implies s[j] == s.drop_last()[j] by {}
    }
}

/// The characters of a string slice, in order.
pub fn chars_of(s: &str) -> (v: Vec<char>)
    ensures
        v@ == s@,
{
    let mut v: Vec<char> = Vec::new();
    for c in it: s.chars()
        invariant
            it.seq() == s@,
            v@ == it.seq().take(it.index()),
    {
        v.push(c);
        assert(v@ =~= it.seq().take(it.index() + 1));
    }
    assert(v@ =~= s@);
    v
}

/// The character ranges of the pieces of `chars` between occurrences of
/// `sep`: the `k`-th range spans exactly the `k`-th piece of the split.
pub fn split_bounds(chars: &Vec<char>, sep: char) -> (b: Vec<(usize, usize)>)
    ensures
        b@.len() == split_on(chars@, sep).len(),
        forall|k: int|
            0 <= k < b@.len() ==> (#[trigger] b@[k]).0 <= b@[k].1 <= chars@.len()
                && chars@.subrange(b@[k].0 as int, b@[k].1 as int) == split_on(chars@, sep)[k],
{
    let n = chars.len();
    let mut b: Vec<(usize, usize)> = Vec::new();
    let mut start: usize = 0;
    let mut i: usize = 0;
    proof {
        lemma_split_nonempty(chars@.take(0), sep);
        assert(chars@.take(0) =~= Seq::<char>::empty());
    }
    while i < n
        invariant
            n == chars@.len(),
            start <= i <= n,
            split_on(chars@.take(i as int), sep).len() == b@.len() + 1,
            split_on(chars@.take(i as int), sep).last() == chars@.subrange(start as int, i as int),
            forall|k: int|
                0 <= k < b@.len() ==> (#[trigger] b@[k]).0 <= b@[k].1 <= start
                    && chars@.subrange(b@[k].0 as int, b@[k].1 as int) == split_on(
                    chars@.take(i as int),
                    sep,
                )[k],
        decreases n - i,
    {
        let ghost prev = split_on(chars@.take(i as int), sep);
        let c = chars[i];
        assert(chars@.take(i + 1).drop_last() =~= chars@.take(i as int));
        if c == sep {
            b.push((start, i));
            start = i + 1;
            i = i + 1;
            assert(chars@.subrange(start as int, i as int) =~= Seq::<char>::empty());
        } else {
            i = i + 1;
            assert(chars@.subrange(start as int, i as int) =~= chars@.subrange(
                start as int,
                i - 1,
            ).push(c));
        }
        assert forall|k: int| 0 <= k < b@.len() implies (#[trigger] b@[k]).0 <= b@[k].1 <= start
            && chars@.subrange(b@[k].0 as int, b@[k].1 as int) == split_on(
            chars@.take(i as int),
            sep,
        )[k] by {
            assert(split_on(chars@.take(i as int), sep)[k] == prev[k]);
        }
    }
    b.push((start, n));
    assert(chars@.take(n as int) =~= chars@);
    b
}

/// The character ranges of the pieces of `chars` between occurrences of the
/// non-empty text `pat`: the `k`-th range spans exactly the `k`-th piece.
pub fn split_bounds_str(chars: &Vec<char>, pat: &Vec<char>) -> (b: Vec<(usize, usize)>)
    requires
        pat@.len() > 0,
    ensures
        b@.len() == split_on_str(chars@, pat@).len(),
        forall|k: int|
            0 <= k < b@.len() ==> (#[trigger] b@[k]).0 <= b@[k].1 <= chars@.len()
                && chars@.subrange(b@[k].0 as int, b@[k].1 as int) == split_on_str(
                chars@,
                pat@,
            )[k],
{
    let n = chars.len();
    let m = pat.len();
    let mut b: Vec<(usize, usize)> = Vec::new();
    let mut start: usize = 0;
    let mut i: usize = 0;
    proof {
        assert(chars@.take(0) =~= Seq::<char>::empty());
    }
    while i < n
        invariant
            n == chars@.len(),
            m == pat@.len(),
            m > 0,
            start <= i <= n,
            split_on_str(chars@.take(i as int), pat@).len() == b@.len() + 1,
            split_on_str(chars@.take(i as int), pat@).last() == chars@.subrange(
                start as int,
                i as int,
            ),
            forall|k: int|
                0 <= k < b@.len() ==> (#[trigger] b@[k]).0 <= b@[k].1 <= start
                    && chars@.subrange(b@[k].0 as int, b@[k].1 as int) == split_on_str(
                    chars@.take(i as int),
                    pat@,
                )[k],
        decreases n - i,
    {
        let ghost prev = split_on_str(chars@.take(i as int), pat@);
        let ghost last = prev.last().push(chars@[i as int]);
        assert(chars@.take(i + 1).drop_last() =~= chars@.take(i as int));
        assert(last =~= chars@.subrange(start as int, i + 1));
        let end = i + 1;
        let found = if end - start >= m {
            matches_at(chars, pat, end - m)
        } else {
            false
        };
        proof {
            if end - start >= m {
                assert(last.subrange(last.len() - m, last.len() as int) =~= chars@.subrange(
                    end - m,
                    end as int,
                ));
            }
        }
        if found {
            b.push((start, end - m));
            assert(last.take(last.len() - m) =~= chars@.subrange(start as int, end - m));
            start = end;
            assert(chars@.subrange(start as int, end as int) =~= Seq::<char>::empty());
        }
        i = end;
        assert forall|k: int| 0 <= k < b@.len() implies (#[trigger] b@[k]).0 <= b@[k].1 <= start
            && chars@.subrange(b@[k].0 as int, b@[k].1 as int) == split_on_str(
            chars@.take(i as int),
            pat@,
        )[k] by {
            if k < prev.len() - 1 {
                assert(split_on_str(chars@.take(i as int), pat@)[k] == prev[k]);
            }
        }
    }
    b.push((start, n));
    assert(chars@.take(n as int) =~= chars@);
    b
}

/// The characters of `chars` from `lo` up to, not including, `hi`.
pub fn slice_chars(chars: &Vec<char>, lo: usize, hi: usize) -> (v: Vec<char>)
    requires
        lo <= hi <= chars@.len(),
    ensures
        v@ == chars@.subrange(lo as int, hi as int),
{
    let mut v: Vec<char> = Vec::new();
    let mut i = lo;
    while i < hi
        invariant
            lo <= i <= hi <= chars@.len(),
            v@ == chars@.subrange(lo as int, i as int),
        decreases hi - i,
    {
        v.push(chars[i]);
        i = i + 1;
        assert(v@ =~= chars@.subrange(lo as int, i as int));
    }
    v
}

/// Position of the first `c` in `chars`, if any (`str::find`, counted in
/// characters).
pub fn find_char(chars: &Vec<char>, c: char) -> (r: Option<usize>)
    ensures
        r is None <==> index_of(chars@, c) is None,
        r matches Some(i) ==> index_of(chars@, c) == Some(i as int),
{
    let n = chars.len();
    let mut i: usize = 0;
    while i < n
        invariant
            n == chars@.len(),
            i <= n,
            index_of(chars@.take(i as int), c) is None,
        decreases n - i,
    {
        assert(chars@.take(i + 1).drop_last() =~= chars@.take(i as int));
        if chars[i] == c {
            proof {
                lemma_index_of(chars@, c);
                lemma_index_of(chars@.take(i as int), c);
                lemma_index_of(chars@.take(i + 1), c);
                if let Some(k) = index_of(chars@, c) {
                    if k < i {
                        assert(chars@.take(i as int)[k] == c);
                    }
                }
            }
            return Some(i);
        }
        i = i + 1;
    }
    proof {
        assert(chars@.take(n as int) =~= chars@);
    }
    None
}

/// Whether `pat` stands in `chars` at position `k`.
fn matches_at(chars: &Vec<char>, pat: &Vec<char>, k: usize) -> (b: bool)
    requires
        k + pat@.len() <= chars@.len(),
    ensures
        b == occurs_at(chars@, pat@, k as int),
{
    let m = pat.len();
    let n = chars.len();
    let mut j: usize = 0;
    while j < m
        invariant
            m == pat@.len(),
            n == chars@.len(),
            k + m <= chars@.len(),
            j <= m,
            forall|t: int| 0 <= t < j ==> chars@[k + t] == pat@[t],
        decreases m - j,
    {
        if chars[k + j] != pat[j] {
            assert(chars@.subrange(k as int, k + m)[j as int] != pat@[j as int]);
            return false;
        }
        j = j + 1;
    }
    assert(chars@.subrange(k as int, k + m) =~= pat@);
    true
}

/// Whether `pat` stands anywhere in `chars` (`str::contains`).
pub fn contains_chars(chars: &Vec<char>, pat: &Vec<char>) -> (b: bool)
    ensures
        b == has_substring(chars@, pat@),
{
    let n = chars.len();
    let m = pat.len();
    if m > n {
        return false;
    }
    let last = n - m;
    let mut k: usize = 0;
    while k < last
        invariant
            n == chars@.len(),
            m == pat@.len(),
            last == n - m,
            k <= last,
            forall|t: int| 0 <= t < k ==> !occurs_at(chars@, pat@, t),
        decreases last - k,
    {
        if matches_at(chars, pat, k) {
            return true;
        }
        k = k + 1;
    }
    matches_at(chars, pat, last)
}

} // verus!

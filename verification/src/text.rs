//! Character-level text model: splitting on a separator character, and the
//! line discipline of the triplet format ('\n' ends a record; a final line
//! needs no terminator).

use vstd::prelude::*;

verus! {

/// Split `s` at every occurrence of `sep`. There is always at least one
/// segment; each separator ends one segment and opens the next, so a
/// trailing separator yields a trailing empty segment.
pub open spec fn split_on(s: Seq<char>, sep: char) -> Seq<Seq<char>>
    decreases s.len(),
{
    if s.len() == 0 {
        seq![Seq::<char>::empty()]
    } else if s[0] == sep {
        seq![Seq::<char>::empty()] + split_on(s.drop_first(), sep)
    } else {
        let rest = split_on(s.drop_first(), sep);
        seq![seq![s[0]] + rest[0]] + rest.drop_first()
    }
}

/// Splitting yields at least one segment.
pub proof fn lemma_split_on_nonempty(s: Seq<char>, sep: char)
    ensures
        split_on(s, sep).len() >= 1,
    decreases s.len(),
{
    if s.len() == 0 {
    } else if s[0] == sep {
        lemma_split_on_nonempty(s.drop_first(), sep);
    } else {
        lemma_split_on_nonempty(s.drop_first(), sep);
    }
}

/// Appending one character extends the last segment, or — when it is the
/// separator — closes it and opens a fresh empty one.
pub proof fn lemma_split_on_push(s: Seq<char>, sep: char, c: char)
    ensures
        c == sep ==> split_on(s.push(c), sep) == split_on(s, sep).push(Seq::<char>::empty()),
        c != sep ==> split_on(s.push(c), sep) == split_on(s, sep).drop_last().push(
            split_on(s, sep).last().push(c),
        ),
    decreases s.len(),
{
    lemma_split_on_nonempty(s, sep);
    assert(split_on(Seq::<char>::empty(), sep) == seq![Seq::<char>::empty()]);
    if s.len() == 0 {
        let t = s.push(c);
        assert(t[0] == c);
        assert(t.drop_first() =~= Seq::<char>::empty());
        if c == sep {
            assert(split_on(t, sep) =~~= split_on(s, sep).push(Seq::<char>::empty()));
        } else {
            assert(split_on(t, sep)[0] =~= seq![c]);
            assert(split_on(t, sep) =~~= split_on(s, sep).drop_last().push(
                split_on(s, sep).last().push(c),
            ));
        }
    } else {
        let t = s.push(c);
        assert(t[0] == s[0]);
        assert(t.drop_first() =~= s.drop_first().push(c));
        lemma_split_on_push(s.drop_first(), sep, c);
        lemma_split_on_nonempty(s.drop_first(), sep);
        let rest = split_on(s.drop_first(), sep);
        let rest2 = split_on(t.drop_first(), sep);
        if s[0] == sep {
            if c == sep {
                assert(split_on(t, sep) =~~= split_on(s, sep).push(Seq::<char>::empty()));
            } else {
                assert(rest2 == rest.drop_last().push(rest.last().push(c)));
                assert(split_on(s, sep).last() == rest.last());
                assert(split_on(t, sep) =~~= split_on(s, sep).drop_last().push(
                    split_on(s, sep).last().push(c),
                ));
            }
        } else {
            if c == sep {
                assert(rest2 == rest.push(Seq::<char>::empty()));
                assert(rest2[0] == rest[0]) by {
                    assert(rest.len() >= 1);
                }
                assert(split_on(t, sep) =~~= split_on(s, sep).push(Seq::<char>::empty()));
            } else {
                assert(rest2 == rest.drop_last().push(rest.last().push(c)));
                if rest.len() == 1 {
                    assert(rest2[0] == rest[0].push(c));
                    assert(split_on(s, sep).last() == seq![s[0]] + rest[0]);
                    assert((seq![s[0]] + rest[0].push(c)) =~= (seq![s[0]] + rest[0]).push(c));
                    assert(split_on(t, sep) =~~= split_on(s, sep).drop_last().push(
                        split_on(s, sep).last().push(c),
                    ));
                } else {
                    assert(rest2[0] == rest[0]);
                    assert(split_on(s, sep).last() == rest.last());
                    assert(split_on(t, sep) =~~= split_on(s, sep).drop_last().push(
                        split_on(s, sep).last().push(c),
                    ));
                }
            }
        }
    }
}

/// The text holds no occurrence of the character.
pub open spec fn sep_free(s: Seq<char>, sep: char) -> bool {
    forall|j: int| 0 <= j < s.len() ==> s[j] != sep
}

/// No segment of a split contains the separator.
pub proof fn lemma_split_on_sep_free(s: Seq<char>, sep: char)
    ensures
        forall|i: int|
            0 <= i < split_on(s, sep).len() ==> sep_free(#[trigger] split_on(s, sep)[i], sep),
    decreases s.len(),
{
    if s.len() == 0 {
        assert(sep_free(split_on(s, sep)[0], sep));
    } else {
        lemma_split_on_sep_free(s.drop_first(), sep);
        lemma_split_on_nonempty(s.drop_first(), sep);
        let rest = split_on(s.drop_first(), sep);
        if s[0] == sep {
            assert forall|i: int| 0 <= i < split_on(s, sep).len() implies sep_free(
                #[trigger] split_on(s, sep)[i],
                sep,
            ) by {
                if i > 0 {
                    assert(split_on(s, sep)[i] == rest[i - 1]);
                    assert(sep_free(rest[i - 1], sep));
                } else {
                    assert(split_on(s, sep)[0] =~= Seq::<char>::empty());
                }
            }
        } else {
            assert forall|i: int| 0 <= i < split_on(s, sep).len() implies sep_free(
                #[trigger] split_on(s, sep)[i],
                sep,
            ) by {
                if i > 0 {
                    assert(split_on(s, sep)[i] == rest[i]);
                    assert(sep_free(rest[i], sep));
                } else {
                    assert(split_on(s, sep)[0] == seq![s[0]] + rest[0]);
                    assert(sep_free(rest[0], sep));
                    assert forall|j: int| 0 <= j < split_on(s, sep)[0].len() implies split_on(
                        s,
                        sep,
                    )[0][j] != sep by {
                        if j > 0 {
                            assert(split_on(s, sep)[0][j] == rest[0][j - 1]);
                        }
                    }
                }
            }
        }
    }
}

/// Concatenation keeps freedom from the separator.
pub proof fn lemma_sep_free_concat(u: Seq<char>, v: Seq<char>, sep: char)
    requires
        sep_free(u, sep),
        sep_free(v, sep),
    ensures
        sep_free(u + v, sep),
{
    assert forall|j: int| 0 <= j < (u + v).len() implies (u + v)[j] != sep by {
        if j < u.len() {
            assert((u + v)[j] == u[j]);
        } else {
            assert((u + v)[j] == v[j - u.len()]);
        }
    }
}

/// Appending a separator-free segment extends the last segment of the split.
pub proof fn lemma_split_on_append_seg(t: Seq<char>, seg: Seq<char>, sep: char)
    requires
        sep_free(seg, sep),
    ensures
        split_on(t + seg, sep) == split_on(t, sep).drop_last().push(split_on(t, sep).last() + seg),
    decreases seg.len(),
{
    lemma_split_on_nonempty(t, sep);
    if seg.len() == 0 {
        assert(t + seg =~= t);
        assert(split_on(t, sep).last() + seg =~= split_on(t, sep).last());
        assert(split_on(t, sep).drop_last().push(split_on(t, sep).last()) =~= split_on(t, sep));
    } else {
        let front = seg.drop_last();
        let c = seg.last();
        assert(sep_free(front, sep)) by {
            assert forall|j: int| 0 <= j < front.len() implies front[j] != sep by {
                assert(front[j] == seg[j]);
            }
        }
        assert(c != sep);
        lemma_split_on_append_seg(t, front, sep);
        lemma_split_on_push(t + front, sep, c);
        lemma_split_on_nonempty(t + front, sep);
        assert(t + seg =~= (t + front).push(c));
        assert((split_on(t, sep).last() + front).push(c) =~= split_on(t, sep).last() + seg);
        assert(split_on(t + seg, sep) =~~= split_on(t, sep).drop_last().push(
            split_on(t, sep).last() + seg,
        ));
    }
}

/// Appending a separator closes the last segment and opens an empty one.
pub proof fn lemma_split_on_append_sep(t: Seq<char>, sep: char)
    ensures
        split_on(t + seq![sep], sep) == split_on(t, sep).push(Seq::<char>::empty()),
{
    lemma_split_on_push(t, sep, sep);
    assert(t + seq![sep] =~= t.push(sep));
}

/// Split a string slice at every occurrence of `sep`.
pub fn split_str(s: &str, sep: char) -> (r: Vec<String>)
    ensures
        r.deep_view() == split_on(s@, sep),
{
    let n = s.unicode_len();
    let mut r: Vec<String> = Vec::new();
    let mut start: usize = 0;
    let mut i: usize = 0;
    proof {
        assert(s@.take(0) =~= Seq::<char>::empty());
        assert(s@.subrange(0, 0) =~= Seq::<char>::empty());
        assert(r.deep_view() =~= Seq::<Seq<char>>::empty());
        assert(split_on(s@.take(0), sep) =~~= r.deep_view().push(s@.subrange(0, 0)));
    }
    while i < n
        invariant
            start <= i <= n,
            n == s@.len(),
            split_on(s@.take(i as int), sep) == r.deep_view().push(
                s@.subrange(start as int, i as int),
            ),
        decreases n - i,
    {
        let c = s.get_char(i);
        proof {
            lemma_split_on_push(s@.take(i as int), sep, c);
            assert(s@.take(i + 1 as int) =~= s@.take(i as int).push(s@[i as int]));
            lemma_split_on_nonempty(s@.take(i as int), sep);
        }
        if c == sep {
            let seg = s.substring_char(start, i);
            r.push(seg.to_owned());
            proof {
                assert(split_on(s@.take(i + 1 as int), sep) =~~= r.deep_view().push(
                    s@.subrange(i + 1 as int, i + 1 as int),
                ));
            }
            start = i + 1;
        } else {
            proof {
                assert(s@.subrange(start as int, i + 1 as int) =~= s@.subrange(
                    start as int,
                    i as int,
                ).push(s@[i as int]));
                assert(split_on(s@.take(i + 1 as int), sep) =~~= r.deep_view().push(
                    s@.subrange(start as int, i + 1 as int),
                ));
            }
        }
        i = i + 1;
    }
    let seg = s.substring_char(start, n);
    r.push(seg.to_owned());
    proof {
        assert(s@.take(n as int) =~= s@);
        assert(r.deep_view() =~~= split_on(s@, sep));
    }
    r
}

/// The records of a text: segments between '\n' characters, where a final
/// '\n' terminates the last record rather than opening an empty one.
pub open spec fn lines_of(s: Seq<char>) -> Seq<Seq<char>> {
    let segs = split_on(s, '\n');
    if segs.last() == Seq::<char>::empty() {
        segs.drop_last()
    } else {
        segs
    }
}

/// Split a text into its records.
pub fn split_lines(s: &str) -> (r: Vec<String>)
    ensures
        r.deep_view() == lines_of(s@),
{
    let mut segs = split_str(s, '\n');
    proof {
        lemma_split_on_nonempty(s@, '\n');
    }
    let last = segs.len() - 1;
    if segs[last].as_str().is_empty() {
        proof {
            assert(segs.deep_view()[last as int] == segs@[last as int]@);
            assert(segs@[last as int]@ =~= Seq::<char>::empty());
        }
        segs.pop();
        proof {
            assert(segs.deep_view() =~~= lines_of(s@));
        }
    } else {
        proof {
            assert(segs.deep_view()[last as int] == segs@[last as int]@);
            assert(segs.deep_view() =~~= lines_of(s@));
        }
    }
    segs
}

} // verus!

use vstd::prelude::*;

verus! {

/// The pieces of `s` between single spaces, in the order that
/// `str::split(' ')` yields them (there is always at least one piece).
pub open spec fn split_spaces(s: Seq<char>) -> Seq<Seq<char>>
    decreases s.len(),
{
    if s.len() == 0 {
        seq![Seq::<char>::empty()]
    } else {
        let prev = split_spaces(s.drop_last());
        if s.last() == ' ' {
            prev.push(Seq::<char>::empty())
        } else {
            prev.update(prev.len() - 1, prev.last().push(s.last()))
        }
    }
}

/// The pieces that are not empty, in order.
pub open spec fn nonempty_pieces(pieces: Seq<Seq<char>>) -> Seq<Seq<char>>
    decreases pieces.len(),
{
    if pieces.len() == 0 {
        Seq::<Seq<char>>::empty()
    } else {
        let prev = nonempty_pieces(pieces.drop_last());
        if pieces.last().len() > 0 {
            prev.push(pieces.last())
        } else {
            prev
        }
    }
}

/// The words of a command message after the command itself: the pieces
/// between spaces, the first one dropped, empty ones left out.
pub open spec fn tag_words(content: Seq<char>) -> Seq<Seq<char>> {
    nonempty_pieces(split_spaces(content).skip(1))
}

/// The words joined by single spaces.
pub open spec fn join_words(words: Seq<Seq<char>>) -> Seq<char>
    decreases words.len(),
{
    if words.len() == 0 {
        Seq::<char>::empty()
    } else if words.len() == 1 {
        words[0]
    } else {
        join_words(words.drop_last()) + seq![' '] + words.last()
    }
}

/// A space becomes an underscore and a comma becomes a space.
pub open spec fn tag_char(c: char) -> char {
    if c == ' ' {
        '_'
    } else if c == ',' {
        ' '
    } else {
        c
    }
}

/// The space after each comma is dropped; then every space becomes an
/// underscore and every comma a space.
pub open spec fn underscore_tags(s: Seq<char>) -> Seq<char>
    decreases s.len(),
{
    if s.len() == 0 {
        Seq::<char>::empty()
    } else {
        let prev = underscore_tags(s.drop_last());
        if s.last() == ' ' && s.len() >= 2 && s[s.len() - 2] == ',' {
            prev
        } else {
            prev.push(tag_char(s.last()))
        }
    }
}

/// The search tags of a command message: its words after the command,
/// joined by spaces, where a comma separates tags and a space inside a tag
/// becomes an underscore.
pub open spec fn normalized_tags(content: Seq<char>) -> Seq<char> {
    underscore_tags(join_words(tag_words(content)))
}

/// The words that the pieces `pieces[1..len-1]` contribute.
pub open spec fn finished_words(pieces: Seq<Seq<char>>) -> Seq<Seq<char>> {
    if pieces.len() >= 2 {
        nonempty_pieces(pieces.subrange(1, pieces.len() - 1))
    } else {
        Seq::<Seq<char>>::empty()
    }
}

pub proof fn lemma_split_spaces_len(s: Seq<char>)
    ensures
        split_spaces(s).len() >= 1,
    decreases s.len(),
{
    if s.len() > 0 {
        lemma_split_spaces_len(s.drop_last());
    }
}

proof fn lemma_nonempty_pieces_push(q: Seq<Seq<char>>, w: Seq<char>)
    ensures
        nonempty_pieces(q.push(w)) == (if w.len() > 0 {
            nonempty_pieces(q).push(w)
        } else {
            nonempty_pieces(q)
        }),
{
    assert(q.push(w).drop_last() =~= q);
}

proof fn lemma_join_words_push(ws: Seq<Seq<char>>, w: Seq<char>)
    ensures
        join_words(ws.push(w)) == (if ws.len() == 0 {
            w
        } else {
            join_words(ws) + seq![' '] + w
        }),
{
    assert(ws.push(w).drop_last() =~= ws);
}

/// Appends `c` to `s` (`String::push`).
#[verifier::external_body]
pub(crate) fn push_char(s: &mut String, c: char)
    ensures
        final(s)@ == old(s)@.push(c),
{
    s.push(c);
}

/// The characters of `s`, in order.
pub fn chars_of(s: &str) -> (v: Vec<char>)
    ensures
        v@ == s@,
{
    let n = s.unicode_len();
    let mut v: Vec<char> = Vec::new();
    for i in 0..n
        invariant
            n == s@.len(),
            v@ == s@.take(i as int),
    {
        v.push(s.get_char(i));
        assert(v@ =~= s@.take(i + 1));
    }
    assert(v@ =~= s@);
    v
}

/// Appends the characters of `w` to `out`.
fn append_chars(out: &mut Vec<char>, w: &Vec<char>)
    ensures
        final(out)@ == old(out)@ + w@,
{
    for i in 0..w.len()
        invariant
            out@ == old(out)@ + w@.take(i as int),
    {
        out.push(w[i]);
        assert(old(out)@ + w@.take(i + 1) =~= old(out)@ + w@.take(i as int) + seq![w@[i as int]]);
    }
    assert(w@.take(w@.len() as int) =~= w@);
}

/// The words of a command message after the command, joined by single
/// spaces.
pub fn joined_words(content: &Vec<char>) -> (out: Vec<char>)
    ensures
        out@ == join_words(tag_words(content@)),
{
    let mut out: Vec<char> = Vec::new();
    let mut current: Vec<char> = Vec::new();
    let mut past_first = false;
    let mut any_word = false;
    let n = content.len();
    proof {
        lemma_split_spaces_len(content@.take(0));
        assert(content@.take(0) =~= Seq::<char>::empty());
    }
    for i in 0..n
        invariant
            n == content@.len(),
            split_spaces(content@.take(i as int)).len() >= 1,
            current@ == split_spaces(content@.take(i as int)).last(),
            past_first == (split_spaces(content@.take(i as int)).len() >= 2),
            any_word == (finished_words(split_spaces(content@.take(i as int))).len() > 0),
            out@ == join_words(finished_words(split_spaces(content@.take(i as int)))),
    {
        let ghost p = split_spaces(content@.take(i as int));
        let c = content[i];
        assert(content@.take(i + 1).drop_last() =~= content@.take(i as int));
        let ghost p2 = split_spaces(content@.take(i + 1));
        if c == ' ' {
            assert(p2 == p.push(Seq::<char>::empty()));
            assert(p2.subrange(1, p2.len() - 1) =~= p.subrange(1, p.len() as int));
            if past_first {
                assert(p.subrange(1, p.len() as int) =~= p.subrange(1, p.len() - 1).push(p.last()));
                proof {
                    lemma_nonempty_pieces_push(p.subrange(1, p.len() - 1), p.last());
                    lemma_join_words_push(finished_words(p), p.last());
                }
                if current.len() > 0 {
                    if any_word {
                        out.push(' ');
                    }
                    append_chars(&mut out, &current);
                    any_word = true;
                }
            } else {
                assert(p.subrange(1, p.len() as int) =~= Seq::<Seq<char>>::empty());
            }
            current = Vec::new();
            past_first = true;
        } else {
            assert(p2 == p.update(p.len() - 1, p.last().push(c)));
            proof {
                if p.len() >= 2 {
                    assert(p2.subrange(1, p2.len() - 1) =~= p.subrange(1, p.len() - 1));
                }
            }
            current.push(c);
        }
    }
    let ghost p = split_spaces(content@.take(n as int));
    assert(content@.take(n as int) =~= content@);
    if past_first {
        assert(p.skip(1) =~= p.subrange(1, p.len() - 1).push(p.last()));
        proof {
            lemma_nonempty_pieces_push(p.subrange(1, p.len() - 1), p.last());
            lemma_join_words_push(finished_words(p), p.last());
        }
        if current.len() > 0 {
            if any_word {
                out.push(' ');
            }
            append_chars(&mut out, &current);
        }
    } else {
        assert(p.skip(1) =~= Seq::<Seq<char>>::empty());
    }
    out
}

/// The search tags of a command message (see `normalized_tags`).
pub fn normalize_tags(content: &str) -> (tags: String)
    ensures
        tags@ == normalized_tags(content@),
{
    let chars = chars_of(content);
    let joined = joined_words(&chars);
    let mut tags = String::new();
    for i in 0..joined.len()
        invariant
            tags@ == underscore_tags(joined@.take(i as int)),
    {
        let c = joined[i];
        assert(joined@.take(i + 1).drop_last() =~= joined@.take(i as int));
        if c == ' ' && i >= 1 && joined[i - 1] == ',' {
        } else if c == ' ' {
            push_char(&mut tags, '_');
        } else if c == ',' {
            push_char(&mut tags, ' ');
        } else {
            push_char(&mut tags, c);
        }
    }
    assert(joined@.take(joined@.len() as int) =~= joined@);
    tags
}

/// The characters of `c` after its first space (none when it has no space).
pub open spec fn after_first_space(c: Seq<char>) -> Seq<char>
    decreases c.len(),
{
    if c.len() == 0 {
        Seq::<char>::empty()
    } else if c.drop_last().contains(' ') {
        after_first_space(c.drop_last()).push(c.last())
    } else {
        Seq::<char>::empty()
    }
}

/// `s` without its spaces.
pub open spec fn without_spaces(s: Seq<char>) -> Seq<char>
    decreases s.len(),
{
    if s.len() == 0 {
        Seq::<char>::empty()
    } else if s.last() == ' ' {
        without_spaces(s.drop_last())
    } else {
        without_spaces(s.drop_last()).push(s.last())
    }
}

/// Pieces joined back with a space between each two.
spec fn join_all(ps: Seq<Seq<char>>) -> Seq<char>
    decreases ps.len(),
{
    if ps.len() == 0 {
        Seq::<char>::empty()
    } else if ps.len() == 1 {
        ps[0]
    } else {
        join_all(ps.drop_last()) + seq![' '] + ps.last()
    }
}

proof fn lemma_without_spaces_concat(a: Seq<char>, b: Seq<char>)
    ensures
        without_spaces(a + b) == without_spaces(a) + without_spaces(b),
    decreases b.len(),
{
    if b.len() == 0 {
        assert(a + b =~= a);
        assert(without_spaces(a) + without_spaces(b) =~= without_spaces(a));
    } else {
        lemma_without_spaces_concat(a, b.drop_last());
        assert((a + b).drop_last() =~= a + b.drop_last());
        assert((a + b).last() == b.last());
        if b.last() != ' ' {
            assert(without_spaces(a) + without_spaces(b.drop_last()).push(b.last()) =~= (
            without_spaces(a) + without_spaces(b.drop_last())).push(b.last()));
        }
    }
}

proof fn lemma_split_spaces_join(c: Seq<char>)
    ensures
        split_spaces(c).len() >= 1,
        join_all(split_spaces(c)) == c,
        forall|i: int, j: int|
            0 <= i < split_spaces(c).len() && 0 <= j < split_spaces(c)[i].len()
                ==> #[trigger] split_spaces(c)[i][j] != ' ',
    decreases c.len(),
{
    if c.len() > 0 {
        let p = c.drop_last();
        lemma_split_spaces_join(p);
        let ps = split_spaces(p);
        let qs = split_spaces(c);
        if c.last() == ' ' {
            assert(qs == ps.push(Seq::<char>::empty()));
            assert(qs.drop_last() =~= ps);
            assert(c =~= p + seq![' '] + Seq::<char>::empty());
            assert forall|i: int, j: int| 0 <= i < qs.len() && 0 <= j < qs[i].len() implies #[trigger] qs[i][j]
                != ' ' by {
                assert(i < ps.len());
                assert(qs[i] == ps[i]);
            }
        } else {
            let l = ps.len() - 1;
            assert(qs == ps.update(l, ps[l].push(c.last())));
            assert forall|i: int, j: int| 0 <= i < qs.len() && 0 <= j < qs[i].len() implies #[trigger] qs[i][j]
                != ' ' by {
                if i < l {
                    assert(qs[i] == ps[i]);
                } else if j < ps[l].len() {
                    assert(qs[i][j] == ps[l][j]);
                }
            }
            if ps.len() == 1 {
                assert(c =~= ps[0].push(c.last()));
            } else {
                assert(qs.drop_last() =~= ps.drop_last());
                assert(ps.last() == ps[l]);
                assert(join_all(ps) == join_all(ps.drop_last()) + seq![' '] + ps.last());
                assert(c =~= p.push(c.last()));
                assert(c =~= join_all(ps.drop_last()) + seq![' '] + ps[l].push(c.last()));
            }
        }
    }
}

proof fn lemma_after_first_space(c: Seq<char>)
    ensures
        after_first_space(c) == join_all(split_spaces(c).skip(1)),
    decreases c.len(),
{
    lemma_split_spaces_join(c);
    if c.len() > 0 {
        let p = c.drop_last();
        lemma_after_first_space(p);
        lemma_split_spaces_join(p);
        let ps = split_spaces(p);
        let qs = split_spaces(c);
        if ps.len() == 1 {
            // no space in p
            assert(!p.contains(' ')) by {
                if p.contains(' ') {
                    let k = choose|k: int| 0 <= k < p.len() && p[k] == ' ';
                    assert(ps[0][k] == ' ');
                }
            }
            if c.last() == ' ' {
                assert(qs == ps.push(Seq::<char>::empty()));
                assert(qs.skip(1) =~= seq![Seq::<char>::empty()]);
            } else {
                assert(qs.len() == 1);
                assert(qs.skip(1) =~= Seq::<Seq<char>>::empty());
            }
        } else {
            assert(p.contains(' ')) by {
                assert(p == join_all(ps));
                let l = ps.len() - 1;
                assert(join_all(ps) == join_all(ps.drop_last()) + seq![' '] + ps.last());
                assert(p[join_all(ps.drop_last()).len() as int] == ' ');
            }
            let l = ps.len() - 1;
            if c.last() == ' ' {
                assert(qs == ps.push(Seq::<char>::empty()));
                assert(qs.skip(1) =~= ps.skip(1).push(Seq::<char>::empty()));
                assert(qs.skip(1).drop_last() =~= ps.skip(1));
                assert(join_all(ps.skip(1)).push(' ') =~= join_all(ps.skip(1)) + seq![' ']
                    + Seq::<char>::empty());
            } else {
                assert(qs == ps.update(l, ps[l].push(c.last())));
                let a = ps.skip(1);
                let b = qs.skip(1);
                assert(b =~= a.update(a.len() - 1, a.last().push(c.last())));
                if a.len() == 1 {
                    assert(join_all(b) == b[0]);
                } else {
                    assert(b.drop_last() =~= a.drop_last());
                    assert(join_all(a).push(c.last()) =~= join_all(a.drop_last()) + seq![' ']
                        + a.last().push(c.last()));
                }
            }
        }
    }
}

proof fn lemma_words_without_spaces(ps: Seq<Seq<char>>)
    ensures
        without_spaces(join_all(ps)) == without_spaces(join_words(nonempty_pieces(ps))),
    decreases ps.len(),
{
    if ps.len() == 1 {
        assert(ps.drop_last() =~= Seq::<Seq<char>>::empty());
        assert(nonempty_pieces(Seq::<Seq<char>>::empty()) == Seq::<Seq<char>>::empty());
        assert(nonempty_pieces(ps.drop_last()) == Seq::<Seq<char>>::empty());
        assert(ps.last() == ps[0]);
        if ps[0].len() > 0 {
            assert(nonempty_pieces(ps) == Seq::<Seq<char>>::empty().push(ps[0]));
            assert(nonempty_pieces(ps) =~= seq![ps[0]]);
        } else {
            assert(ps[0] =~= Seq::<char>::empty());
        }
    } else if ps.len() > 1 {
        let q = ps.drop_last();
        let w = ps.last();
        lemma_words_without_spaces(q);
        lemma_without_spaces_concat(join_all(q) + seq![' '], w);
        lemma_without_spaces_concat(join_all(q), seq![' ']);
        assert(without_spaces(seq![' ']) =~= Seq::<char>::empty()) by {
            let sp = seq![' '];
            assert(sp.drop_last() =~= Seq::<char>::empty());
            assert(sp.last() == ' ');
            assert(without_spaces(Seq::<char>::empty()) == Seq::<char>::empty());
            assert(without_spaces(sp.drop_last()) == Seq::<char>::empty());
        }
        lemma_nonempty_pieces_push(q, w);
        assert(ps == q.push(w));
        let nq = nonempty_pieces(q);
        if w.len() > 0 {
            lemma_join_words_push(nq, w);
            if nq.len() > 0 {
                lemma_without_spaces_concat(join_words(nq) + seq![' '], w);
                lemma_without_spaces_concat(join_words(nq), seq![' ']);
            } else {
                assert(join_words(nq) =~= Seq::<char>::empty());
            }
        } else {
            assert(w =~= Seq::<char>::empty());
        }
    }
}

/// Whether `s` has no space at its ends and no two spaces in a row.
pub open spec fn single_spaced(s: Seq<char>) -> bool {
    &&& s.len() > 0 ==> s[0] != ' ' && s.last() != ' '
    &&& forall|i: int| 0 <= i < s.len() - 1 && #[trigger] s[i] == ' ' ==> s[i + 1] != ' '
}

proof fn lemma_join_single_spaced(ws: Seq<Seq<char>>)
    requires
        forall|i: int| 0 <= i < ws.len() ==> #[trigger] ws[i].len() > 0,
        forall|i: int, j: int| 0 <= i < ws.len() && 0 <= j < ws[i].len() ==> #[trigger] ws[i][j] != ' ',
    ensures
        single_spaced(join_words(ws)),
    decreases ws.len(),
{
    if ws.len() == 1 {
        assert(ws[0].len() > 0);
        assert(ws[0][0] != ' ');
        assert(ws[0][ws[0].len() - 1] != ' ');
    } else if ws.len() > 1 {
        let q = ws.drop_last();
        let w = ws.last();
        assert forall|i: int, j: int| 0 <= i < q.len() && 0 <= j < q[i].len() implies #[trigger] q[i][j]
            != ' ' by {
            assert(q[i] == ws[i]);
        }
        assert forall|i: int| 0 <= i < q.len() implies #[trigger] q[i].len() > 0 by {
            assert(q[i] == ws[i]);
        }
        lemma_join_single_spaced(q);
        let a = join_words(q);
        let s = join_words(ws);
        assert(s == a + seq![' '] + w);
        assert(w.len() > 0 && ws[ws.len() - 1] == w);
        assert(w[0] != ' ' && w[w.len() - 1] != ' ');
        assert(q.len() > 0);
        assert(a.len() > 0) by {
            lemma_join_nonempty(q);
        }
        assert forall|i: int| 0 <= i < s.len() - 1 && #[trigger] s[i] == ' ' implies s[i + 1] != ' ' by {
            if i < a.len() - 1 {
                assert(s[i] == a[i] && s[i + 1] == a[i + 1]);
            } else if i == a.len() - 1 {
                assert(s[i] == a.last());
            } else if i == a.len() {
                assert(s[i + 1] == w[0]);
            } else {
                let k = i - a.len() - 1;
                assert(s[i] == w[k]);
                assert(w[k] != ' ');
            }
        }
        assert(s[0] == a[0]);
        assert(s.last() == w.last());
    }
}

proof fn lemma_join_nonempty(ws: Seq<Seq<char>>)
    requires
        ws.len() > 0,
        forall|i: int| 0 <= i < ws.len() ==> #[trigger] ws[i].len() > 0,
    ensures
        join_words(ws).len() > 0,
    decreases ws.len(),
{
    assert(ws[ws.len() - 1].len() > 0);
}

proof fn lemma_nonempty_pieces_props(ps: Seq<Seq<char>>)
    requires
        forall|i: int, j: int| 0 <= i < ps.len() && 0 <= j < ps[i].len() ==> #[trigger] ps[i][j] != ' ',
    ensures
        forall|i: int| 0 <= i < nonempty_pieces(ps).len() ==> #[trigger] nonempty_pieces(ps)[i].len() > 0,
        forall|i: int, j: int|
            0 <= i < nonempty_pieces(ps).len() && 0 <= j < nonempty_pieces(ps)[i].len()
                ==> #[trigger] nonempty_pieces(ps)[i][j] != ' ',
    decreases ps.len(),
{
    if ps.len() > 0 {
        let q = ps.drop_last();
        assert forall|i: int, j: int| 0 <= i < q.len() && 0 <= j < q[i].len() implies #[trigger] q[i][j]
            != ' ' by {
            assert(q[i] == ps[i]);
        }
        lemma_nonempty_pieces_props(q);
        let w = ps.last();
        assert(ps.last() == ps[ps.len() - 1]);
        assert(ps == q.push(w));
        lemma_nonempty_pieces_push(q, w);
        let nq = nonempty_pieces(q);
        if w.len() > 0 {
            let r = nq.push(w);
            assert forall|i: int| 0 <= i < r.len() implies #[trigger] r[i].len() > 0 by {
                if i < nq.len() {
                    assert(r[i] == nq[i]);
                }
            }
            assert forall|i: int, j: int| 0 <= i < r.len() && 0 <= j < r[i].len() implies #[trigger] r[i][j]
                != ' ' by {
                if i < nq.len() {
                    assert(r[i] == nq[i]);
                } else {
                    assert(r[i] == ps[ps.len() - 1]);
                }
            }
        }
    }
}

/// The words searched for are the text after the command's first space,
/// with runs of spaces made single and spaces at the ends dropped: the
/// joined words have no space at their ends and none doubled, and apart from
/// spaces they hold exactly the characters that follow the first space, in
/// order.
pub proof fn law_words_follow_the_command(content: Seq<char>)
    ensures
        single_spaced(join_words(tag_words(content))),
        without_spaces(join_words(tag_words(content))) == without_spaces(
            after_first_space(content),
        ),
{
    lemma_split_spaces_join(content);
    let ps = split_spaces(content);
    let rest = ps.skip(1);
    assert forall|i: int, j: int| 0 <= i < rest.len() && 0 <= j < rest[i].len() implies #[trigger] rest[i][j]
        != ' ' by {
        assert(rest[i] == ps[i + 1]);
    }
    lemma_nonempty_pieces_props(rest);
    lemma_join_single_spaced(nonempty_pieces(rest));
    lemma_after_first_space(content);
    lemma_words_without_spaces(rest);
}

/// Whether the character at `i` of `j` is kept in the tags: all are but a
/// space right after a comma.
pub open spec fn kept_at(j: Seq<char>, i: int) -> bool {
    !(j[i] == ' ' && i >= 1 && j[i - 1] == ',')
}

/// How many characters of `j` before position `n` are kept.
pub open spec fn kept_before(j: Seq<char>, n: int) -> nat
    decreases n,
{
    if n <= 0 {
        0
    } else {
        kept_before(j, n - 1) + if kept_at(j, n - 1) {
            1nat
        } else {
            0nat
        }
    }
}

/// The character that a kept character becomes in the tags.
spec fn tag_form(c: char) -> char {
    if c == ' ' {
        '_'
    } else if c == ',' {
        ' '
    } else {
        c
    }
}

proof fn lemma_kept_before_prefix(s: Seq<char>, t: Seq<char>, n: int)
    requires
        0 <= n <= t.len() <= s.len(),
        t == s.take(t.len() as int),
    ensures
        kept_before(s, n) == kept_before(t, n),
    decreases n,
{
    if n > 0 {
        lemma_kept_before_prefix(s, t, n - 1);
        assert(t[n - 1] == s[n - 1]);
        if n >= 2 {
            assert(t[n - 2] == s[n - 2]);
        }
    }
}

proof fn lemma_kept_before_grows(j: Seq<char>, a: int, b: int)
    requires
        0 <= a <= b,
    ensures
        kept_before(j, a) <= kept_before(j, b),
        a < b && kept_at(j, a) ==> kept_before(j, a) < kept_before(j, b),
    decreases b - a,
{
    if a < b {
        lemma_kept_before_grows(j, a, b - 1);
    }
}

proof fn lemma_underscore_tags_keep(s: Seq<char>)
    ensures
        underscore_tags(s).len() == kept_before(s, s.len() as int),
        forall|i: int|
            0 <= i < s.len() && kept_at(s, i) ==> #[trigger] underscore_tags(s)[kept_before(
                s,
                i,
            ) as int] == tag_form(s[i]),
    decreases s.len(),
{
    if s.len() > 0 {
        let p = s.drop_last();
        let n = s.len() - 1;
        lemma_underscore_tags_keep(p);
        assert(p == s.take(p.len() as int));
        lemma_kept_before_prefix(s, p, n);
        assert forall|i: int|
            0 <= i < s.len() && kept_at(s, i) implies #[trigger] underscore_tags(s)[kept_before(
                s,
                i,
            ) as int] == tag_form(s[i]) by {
            if i < n {
                lemma_kept_before_prefix(s, p, i);
                assert(s[i] == p[i]);
                if i >= 1 {
                    assert(s[i - 1] == p[i - 1]);
                }
                assert(kept_at(p, i));
                lemma_kept_before_grows(p, i, n);
                assert(underscore_tags(p)[kept_before(p, i) as int] == tag_form(p[i]));
            }
        }
    }
}

/// Every character of the joined words reaches the tags, in order, except a
/// space right after a comma: a space becomes `_`, a comma a space, and every
/// other character (letters, digits, anything) stays as it is. So the tags
/// are as long as the joined words less the number of `, ` in them.
pub proof fn law_tags_keep_every_character(content: Seq<char>)
    ensures
        ({
            let j = join_words(tag_words(content));
            let t = normalized_tags(content);
            &&& t.len() == kept_before(j, j.len() as int)
            &&& forall|i: int|
                0 <= i < j.len() && kept_at(j, i) ==> #[trigger] t[kept_before(j, i) as int] == (if j[i]
                    == ' ' {
                    '_'
                } else if j[i] == ',' {
                    ' '
                } else {
                    j[i]
                })
        }),
{
    lemma_underscore_tags_keep(join_words(tag_words(content)));
}

/// Whether `pat` occurs in `s` starting at `i`.
pub open spec fn occurs_at(s: Seq<char>, pat: Seq<char>, i: int) -> bool {
    0 <= i && i + pat.len() <= s.len() && s.subrange(i, i + pat.len()) == pat
}

/// Whether `pat` occurs anywhere in `s` (`str::find` finds it).
pub open spec fn occurs_in(s: Seq<char>, pat: Seq<char>) -> bool {
    exists|i: int| occurs_at(s, pat, i)
}

/// A pattern placed anywhere in a text occurs in it; one longer than the
/// text does not.
pub proof fn law_occurs_where_placed(before: Seq<char>, pat: Seq<char>, after: Seq<char>, s: Seq<char>)
    ensures
        occurs_in(before + pat + after, pat),
        pat.len() > s.len() ==> !occurs_in(s, pat),
{
    let t = before + pat + after;
    assert(t.subrange(before.len() as int, (before.len() + pat.len()) as int) =~= pat);
    assert(occurs_at(t, pat, before.len() as int));
}

/// Whether `pat` occurs in `s`.
pub fn contains_chars(s: &Vec<char>, pat: &Vec<char>) -> (found: bool)
    ensures
        found == occurs_in(s@, pat@),
{
    if pat.len() == 0 {
        assert(s@.subrange(0, 0) =~= pat@);
        assert(occurs_at(s@, pat@, 0));
        return true;
    }
    if pat.len() > s.len() {
        assert forall|i: int| !occurs_at(s@, pat@, i) by {}
        return false;
    }
    let slen = s.len();
    let last = slen - pat.len();
    let mut i: usize = 0;
    while i <= last
        invariant
            last + pat@.len() == s@.len(),
            slen == s@.len(),
            pat@.len() > 0,
            i <= last + 1,
            forall|k: int| 0 <= k < i ==> !occurs_at(s@, pat@, k),
        decreases last + 1 - i,
    {
        let mut j: usize = 0;
        let mut same = true;
        while j < pat.len()
            invariant
                last + pat@.len() == s@.len(),
                slen == s@.len(),
                i <= last,
                j <= pat@.len(),
                same == (forall|k: int| 0 <= k < j ==> s@[i + k] == pat@[k]),
            decreases pat@.len() - j,
        {
            if s[i + j] != pat[j] {
                same = false;
            }
            j = j + 1;
        }
        if same {
            assert(s@.subrange(i as int, i + pat@.len()) =~= pat@);
            assert(occurs_at(s@, pat@, i as int));
            return true;
        }
        assert(!occurs_at(s@, pat@, i as int)) by {
            if occurs_at(s@, pat@, i as int) {
                let k = choose|k: int| 0 <= k < pat@.len() && s@[i + k] != pat@[k];
                assert(s@.subrange(i as int, i + pat@.len())[k] == s@[i + k]);
            }
        }
        i = i + 1;
    }
    assert forall|k: int| !occurs_at(s@, pat@, k) by {
        if occurs_at(s@, pat@, k) {
            assert(0 <= k <= last);
        }
    }
    false
}

/// The decimal digit for `d < 10`.
pub open spec fn digit_char(d: int) -> char {
    (48 + d) as char
}

/// The decimal text of `n`, without leading zeros.
pub open spec fn decimal(n: nat) -> Seq<char>
    decreases n,
{
    if n < 10 {
        seq![digit_char(n as int)]
    } else {
        decimal(n / 10).push(digit_char((n % 10) as int))
    }
}

/// Whether `c` is an ASCII decimal digit.
pub open spec fn is_digit(c: char) -> bool {
    '0' <= c <= '9'
}

/// The value of a string of decimal digits.
pub open spec fn digits_value(ds: Seq<char>) -> nat
    decreases ds.len(),
{
    if ds.len() == 0 {
        0
    } else {
        digits_value(ds.drop_last()) * 10 + ((ds.last() as int) - 48) as nat
    }
}

/// The decimal text of `n` is a non-empty string of digits, with no
/// leading zero unless it is `0`, whose value is `n`.
pub proof fn law_decimal_digits(n: nat)
    ensures
        decimal(n).len() > 0,
        forall|i: int| 0 <= i < decimal(n).len() ==> is_digit(#[trigger] decimal(n)[i]),
        digits_value(decimal(n)) == n,
        decimal(n)[0] == '0' ==> n == 0,
    decreases n,
{
    if n >= 10 {
        law_decimal_digits(n / 10);
        let prev = decimal(n / 10);
        let d = (n % 10) as int;
        assert(decimal(n) == prev.push(digit_char(d)));
        assert(decimal(n).drop_last() =~= prev);
        assert forall|i: int| 0 <= i < decimal(n).len() implies is_digit(#[trigger] decimal(n)[i]) by {
            if i < prev.len() {
                assert(decimal(n)[i] == prev[i]);
            }
        }
        assert(n == (n / 10) * 10 + n % 10) by (nonlinear_arith);
        assert(decimal(n)[0] == prev[0]);
        assert(decimal(n).last() == digit_char(d));
        assert((digit_char(d) as int) == 48 + d);
        assert(digits_value(decimal(n)) == digits_value(prev) * 10 + d);
        assert(digits_value(prev) == n / 10);
        assert(digits_value(decimal(n)) == n);
    } else {
        assert((digit_char(n as int) as int) == 48 + n);
        assert(decimal(n).drop_last() =~= Seq::<char>::empty());
        assert(digits_value(Seq::<char>::empty()) == 0);
        assert(digits_value(decimal(n)) == n);
    }
}

/// The decimal text of `n`.
pub fn decimal_text(n: u64) -> (s: String)
    ensures
        s@ == decimal(n as nat),
{
    let mut rev: Vec<char> = Vec::new();
    let mut m = n;
    // `rev` holds the low digits of `n`, lowest first
    while m >= 10
        invariant
            decimal(n as nat) == decimal(m as nat) + rev@.reverse(),
        decreases m,
    {
        let d = m % 10;
        let c = char_of_digit(d);
        assert(decimal(m as nat) == decimal((m / 10) as nat).push(digit_char(d as int)));
        assert(decimal((m / 10) as nat).push(c) + rev@.reverse() =~= decimal((m / 10) as nat) + rev@.push(c).reverse());
        rev.push(c);
        m = m / 10;
    }
    let c = char_of_digit(m);
    rev.push(c);
    assert(decimal(n as nat) =~= rev@.reverse());
    let mut s = String::new();
    let mut i = rev.len();
    while i > 0
        invariant
            i <= rev@.len(),
            s@ == rev@.reverse().take(rev@.len() - i),
        decreases i,
    {
        i = i - 1;
        push_char(&mut s, rev[i]);
        assert(s@ =~= rev@.reverse().take(rev@.len() - i));
    }
    assert(rev@.reverse().take(rev@.len() as int) =~= rev@.reverse());
    s
}

fn char_of_digit(d: u64) -> (c: char)
    requires
        d < 10,
    ensures
        c == digit_char(d as int),
{
    if d == 0 { '0' } else if d == 1 { '1' } else if d == 2 { '2' } else if d == 3 { '3' }
    else if d == 4 { '4' } else if d == 5 { '5' } else if d == 6 { '6' } else if d == 7 { '7' }
    else if d == 8 { '8' } else { '9' }
}

} // verus!

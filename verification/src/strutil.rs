use vstd::prelude::*;

verus! {

/// The tokens of `s` split on single space characters.  Consecutive
/// spaces yield empty tokens, and the result always holds one more
/// token than `s` holds spaces.
pub open spec fn split_spaces(s: Seq<char>) -> Seq<Seq<char>>
    decreases s.len(),
{
    if s.len() == 0 {
        seq![Seq::<char>::empty()]
    } else if s[0] == ' ' {
        seq![Seq::<char>::empty()] + split_spaces(s.drop_first())
    } else {
        let rest = split_spaces(s.drop_first());
        seq![seq![s[0]] + rest[0]] + rest.drop_first()
    }
}

/// The tokens of `ts` joined with single spaces; the inverse shape of
/// `split_spaces`.
pub open spec fn join_spaces(ts: Seq<Seq<char>>) -> Seq<char>
    decreases ts.len(),
{
    if ts.len() == 0 {
        Seq::empty()
    } else if ts.len() == 1 {
        ts[0]
    } else {
        ts[0] + seq![' '] + join_spaces(ts.drop_first())
    }
}

/// `s` with every single-quote character removed.
pub open spec fn strip_quotes(s: Seq<char>) -> Seq<char> {
    s.filter(|c: char| c != '\'')
}

pub proof fn lemma_split_spaces_nonempty(s: Seq<char>)
    ensures
        split_spaces(s).len() >= 1,
    decreases s.len(),
{
    if s.len() > 0 {
        lemma_split_spaces_nonempty(s.drop_first());
    }
}

/// The split of a string whose first token is still being read:
/// `p` is the part of the first token read so far.
pub open spec fn prepend_first(p: Seq<char>, ts: Seq<Seq<char>>) -> Seq<Seq<char>> {
    seq![p + ts[0]] + ts.drop_first()
}

/// Splits `s` on single spaces, as the log format asks: empty tokens
/// are kept.
pub fn split_line(s: &str) -> (tokens: Vec<String>)
    ensures
        tokens.deep_view() == split_spaces(s@),
{
    let n = s.unicode_len();
    let mut tokens: Vec<String> = Vec::new();
    let mut start: usize = 0;
    let mut i: usize = 0;
    proof {
        lemma_split_spaces_nonempty(s@);
        assert(s@.skip(0) =~= s@);
        assert(prepend_first(s@.subrange(0, 0), split_spaces(s@)) =~~= split_spaces(s@));
    }
    while i < n
        invariant
            start <= i <= n,
            n == s@.len(),
            split_spaces(s@) =~~= tokens.deep_view() + prepend_first(
                s@.subrange(start as int, i as int),
                split_spaces(s@.skip(i as int)),
            ),
        decreases n - i,
    {
        let ghost pre = tokens.deep_view();
        let ghost part = s@.subrange(start as int, i as int);
        proof {
            lemma_split_spaces_nonempty(s@.skip(i as int));
            lemma_split_spaces_nonempty(s@.skip(i + 1));
            assert(s@.skip(i as int)[0] == s@[i as int]);
            assert(s@.skip(i as int).drop_first() =~= s@.skip(i + 1));
        }
        let c = s.get_char(i);
        if c == ' ' {
            let t = s.substring_char(start, i).to_owned();
            proof {
                let rest = split_spaces(s@.skip(i as int));
                assert(rest == seq![Seq::<char>::empty()] + split_spaces(s@.skip(i + 1)));
                assert(rest[0] =~= Seq::<char>::empty());
                assert(rest.drop_first() =~= split_spaces(s@.skip(i + 1)));
                assert(part + rest[0] =~= part);
                assert(prepend_first(part, rest) =~~= seq![part] + split_spaces(s@.skip(i + 1)));
                assert(t@ == part);
            }
            tokens.push(t);
            proof {
                assert(tokens.deep_view() =~~= pre.push(part));
                assert(pre.push(part) =~~= pre + seq![part]);
                let next = prepend_first(
                    s@.subrange(start as int + (i + 1 - start), i + 1),
                    split_spaces(s@.skip(i + 1)),
                );
                assert(s@.subrange(i + 1, i + 1) =~= Seq::<char>::empty());
                assert(Seq::<char>::empty() + split_spaces(s@.skip(i + 1))[0] =~= split_spaces(
                    s@.skip(i + 1),
                )[0]);
                assert(split_spaces(s@) =~~= tokens.deep_view() + prepend_first(
                    s@.subrange(i + 1, i + 1),
                    split_spaces(s@.skip(i + 1)),
                ));
            }
            start = i + 1;
        } else {
            proof {
                let rest = split_spaces(s@.skip(i + 1));
                let cur = split_spaces(s@.skip(i as int));
                assert(cur == seq![seq![s@[i as int]] + rest[0]] + rest.drop_first());
                assert(cur[0] == seq![s@[i as int]] + rest[0]);
                assert(cur.drop_first() =~= rest.drop_first());
                assert(part + cur[0] =~= s@.subrange(start as int, i + 1) + rest[0]);
                assert(prepend_first(part, cur) =~~= prepend_first(
                    s@.subrange(start as int, i + 1),
                    rest,
                ));
            }
        }
        i += 1;
    }
    proof {
        assert(s@.skip(n as int) =~= Seq::<char>::empty());
        let rest = split_spaces(s@.skip(n as int));
        assert(rest == seq![Seq::<char>::empty()]);
        let part = s@.subrange(start as int, n as int);
        assert(part + rest[0] =~= part);
        assert(rest.drop_first() =~= Seq::<Seq<char>>::empty());
        assert(prepend_first(part, rest) =~~= seq![part]);
    }
    let t = s.substring_char(start, n).to_owned();
    let ghost pre = tokens.deep_view();
    tokens.push(t);
    proof {
        assert(tokens.deep_view() =~~= pre + seq![s@.subrange(start as int, n as int)]);
        assert(tokens.deep_view() =~~= split_spaces(s@));
    }
    tokens
}

/// Joins the tokens from position `from` on with single spaces, the
/// way the extractor reassembles a command line or version text.
pub fn join_from(tokens: &Vec<String>, from: usize) -> (r: String)
    requires
        from <= tokens@.len(),
    ensures
        r@ == join_spaces(tokens.deep_view().skip(from as int)),
{
    let ghost all = tokens.deep_view();
    let n = tokens.len();
    proof {
        assert(all.len() == n);
    }
    let mut r = String::new();
    if from == n {
        proof {
            assert(all.skip(from as int).len() == 0);
        }
        return r;
    }
    r.append(tokens[from].as_str());
    let mut i = from + 1;
    proof {
        assert(all.skip(from as int)[0] == all[from as int]);
        if i < n {
            assert(all.skip(from as int).drop_first() =~= all.skip(i as int));
        } else {
            assert(all.skip(from as int).len() == 1);
        }
        assert(r@ == all[from as int]);
    }
    while i < n
        invariant
            from < i <= n,
            n == all.len(),
            all == tokens.deep_view(),
            i < n ==> join_spaces(all.skip(from as int)) == r@ + seq![' '] + join_spaces(
                all.skip(i as int),
            ),
            i == n ==> join_spaces(all.skip(from as int)) == r@,
        decreases n - i,
    {
        proof {
            reveal_strlit(" ");
            assert(" "@ =~= seq![' ']);
        }
        r.append(" ");
        r.append(tokens[i].as_str());
        proof {
            assert(all.skip(i as int)[0] == all[i as int]);
            if i + 1 < n {
                assert(all.skip(i as int).drop_first() =~= all.skip(i + 1));
                assert(all.skip(i as int).len() >= 2);
                assert(join_spaces(all.skip(i as int)) == all[i as int] + seq![' ']
                    + join_spaces(all.skip(i + 1)));
            } else {
                assert(all.skip(i as int).len() == 1);
                assert(join_spaces(all.skip(i as int)) == all[i as int]);
            }
        }
        i += 1;
    }
    r
}

/// Removes every single-quote character, as the extractor does to
/// command text.
pub fn remove_quotes(s: &str) -> (r: String)
    ensures
        r@ == strip_quotes(s@),
{
    let n = s.unicode_len();
    let mut r = String::new();
    let mut i: usize = 0;
    proof {
        reveal(Seq::filter);
        assert(s@.subrange(0, 0) =~= Seq::<char>::empty());
    }
    while i < n
        invariant
            i <= n,
            n == s@.len(),
            r@ == strip_quotes(s@.subrange(0, i as int)),
        decreases n - i,
    {
        let c = s.get_char(i);
        proof {
            reveal(Seq::filter);
            let pre = s@.subrange(0, i as int);
            let post = s@.subrange(0, i + 1);
            assert(post.drop_last() =~= pre);
            assert(post.last() == s@[i as int]);
        }
        if c != '\'' {
            let piece = s.substring_char(i, i + 1);
            r.append(piece);
            proof {
                assert(piece@ =~= seq![s@[i as int]]);
                assert(r@ =~= strip_quotes(s@.subrange(0, i as int)).push(s@[i as int]));
            }
        }
        i += 1;
    }
    proof {
        assert(s@.subrange(0, n as int) =~= s@);
    }
    r
}

/// Whether some token of `v` equals `x`, the word test behind the
/// named-package classification.
pub fn contains_str(v: &Vec<String>, x: &String) -> (r: bool)
    ensures
        r == v.deep_view().contains(x@),
{
    let n = v.len();
    let mut j: usize = 0;
    while j < n
        invariant
            j <= n,
            n == v@.len(),
            forall|k: int| 0 <= k < j ==> v.deep_view()[k] != x@,
        decreases n - j,
    {
        if v[j].eq(x) {
            proof {
                assert(v.deep_view()[j as int] == x@);
            }
            return true;
        }
        j += 1;
    }
    proof {
        assert forall|k: int| 0 <= k < v.deep_view().len() implies v.deep_view()[k] != x@ by {}
    }
    false
}

} // verus!

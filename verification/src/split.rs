//! Splitting a tag header into whitespace-separated tokens, treating a run
//! of characters enclosed in double quotes as unsplittable.

use vstd::prelude::*;

verus! {

/// The tokens of `s` split on `sep`, except that separators between an odd
/// and the next even `"` are part of their token. `in_quotes` says whether
/// the text begins inside such a quoted run. An unterminated quote extends
/// its run to the end of the text. Empty tokens are kept, so the result has
/// one more token than there are splitting separators.
pub open spec fn split_unquoted(s: Seq<char>, sep: char, in_quotes: bool) -> Seq<Seq<char>>
    decreases s.len(),
{
    if s.len() == 0 {
        seq![Seq::empty()]
    } else if s[0] == sep && !in_quotes {
        seq![Seq::<char>::empty()] + split_unquoted(s.drop_first(), sep, in_quotes)
    } else {
        let next = if s[0] == '"' {
            !in_quotes
        } else {
            in_quotes
        };
        let rest = split_unquoted(s.drop_first(), sep, next);
        rest.update(0, seq![s[0]] + rest[0])
    }
}

/// A split always yields at least one token.
pub proof fn lemma_split_unquoted_len(s: Seq<char>, sep: char, in_quotes: bool)
    ensures
        split_unquoted(s, sep, in_quotes).len() >= 1,
    decreases s.len(),
{
    if s.len() > 0 {
        if s[0] == sep && !in_quotes {
            lemma_split_unquoted_len(s.drop_first(), sep, in_quotes);
        } else {
            let next = if s[0] == '"' {
                !in_quotes
            } else {
                in_quotes
            };
            lemma_split_unquoted_len(s.drop_first(), sep, next);
        }
    }
}

/// A separator after a prefix free of separators and quotes ends the first
/// token there: the prefix is the first token, and the rest splits on its
/// own.
pub proof fn lemma_split_after_prefix(w: Seq<char>, rest: Seq<char>, sep: char)
    requires
        forall|i: int| 0 <= i < w.len() ==> w[i] != sep && w[i] != '"',
    ensures
        split_unquoted(w + seq![sep] + rest, sep, false) == seq![w] + split_unquoted(
            rest,
            sep,
            false,
        ),
    decreases w.len(),
{
    let s = w + seq![sep] + rest;
    if w.len() == 0 {
        assert(s =~= seq![sep] + rest);
        assert(s[0] == sep);
        assert(s.drop_first() =~= rest);
        assert(w =~= Seq::<char>::empty());
        assert(split_unquoted(s, sep, false) =~= seq![w] + split_unquoted(rest, sep, false));
    } else {
        assert(s[0] == w[0]);
        assert(s.drop_first() =~= w.drop_first() + seq![sep] + rest);
        lemma_split_after_prefix(w.drop_first(), rest, sep);
        let r = split_unquoted(s.drop_first(), sep, false);
        assert(r[0] == w.drop_first());
        assert(seq![s[0]] + r[0] =~= w);
        assert(split_unquoted(s, sep, false) =~= seq![w] + split_unquoted(rest, sep, false));
    }
}

/// Inside a quoted run that a lone closing quote ends, nothing splits: the
/// whole text is one token.
pub proof fn lemma_split_quoted_run(v: Seq<char>, sep: char)
    requires
        forall|i: int| 0 <= i < v.len() ==> v[i] != '"',
        sep != '"',
    ensures
        split_unquoted(v + seq!['"'], sep, true) == seq![v + seq!['"']],
    decreases v.len(),
{
    let s = v + seq!['"'];
    if v.len() == 0 {
        assert(s =~= seq!['"']);
        assert(s.drop_first() =~= Seq::<char>::empty());
        assert(split_unquoted(Seq::<char>::empty(), sep, false) =~= seq![Seq::<char>::empty()]);
        assert(split_unquoted(s, sep, true) =~= seq![s]);
    } else {
        assert(s[0] == v[0]);
        assert(s.drop_first() =~= v.drop_first() + seq!['"']);
        lemma_split_quoted_run(v.drop_first(), sep);
        let r = split_unquoted(s.drop_first(), sep, true);
        assert(seq![s[0]] + r[0] =~= s);
        assert(split_unquoted(s, sep, true) == r.update(0, seq![s[0]] + r[0]));
        assert(split_unquoted(s, sep, true) =~= seq![s]);
    }
}

/// Text free of separators and quotes is one token.
pub proof fn lemma_split_whole(w: Seq<char>, sep: char)
    requires
        forall|i: int| 0 <= i < w.len() ==> w[i] != sep && w[i] != '"',
    ensures
        split_unquoted(w, sep, false) == seq![w],
    decreases w.len(),
{
    if w.len() == 0 {
        assert(w =~= Seq::<char>::empty());
        assert(split_unquoted(w, sep, false) =~= seq![w]);
    } else {
        lemma_split_whole(w.drop_first(), sep);
        let r = split_unquoted(w.drop_first(), sep, false);
        assert(seq![w[0]] + r[0] =~= w);
        assert(split_unquoted(w, sep, false) == r.update(0, seq![w[0]] + r[0]));
        assert(split_unquoted(w, sep, false) =~= seq![w]);
    }
}

/// An attribute token `key="value"`, its key free of separators, quotes
/// and equals signs, its value free of quotes, is one token: the quotes
/// shield every separator inside the value.
pub proof fn lemma_split_attr_token(k: Seq<char>, v: Seq<char>, sep: char)
    requires
        forall|i: int| 0 <= i < k.len() ==> k[i] != sep && k[i] != '"',
        forall|i: int| 0 <= i < v.len() ==> v[i] != '"',
        sep != '"',
        sep != '=',
    ensures
        split_unquoted(k + seq!['=', '"'] + v + seq!['"'], sep, false) == seq![
            k + seq!['=', '"'] + v + seq!['"'],
        ],
    decreases k.len(),
{
    let s = k + seq!['=', '"'] + v + seq!['"'];
    if k.len() == 0 {
        assert(s[0] == '=');
        let s1 = s.drop_first();
        assert(s1 =~= seq!['"'] + v + seq!['"']);
        assert(s1[0] == '"');
        let s2 = s1.drop_first();
        assert(s2 =~= v + seq!['"']);
        lemma_split_quoted_run(v, sep);
        let r1 = split_unquoted(s2, sep, true);
        assert(seq![s1[0]] + r1[0] =~= s1);
        assert(split_unquoted(s1, sep, false) == r1.update(0, seq![s1[0]] + r1[0]));
        assert(split_unquoted(s1, sep, false) =~= seq![s1]);
        let r0 = split_unquoted(s1, sep, false);
        assert(seq![s[0]] + r0[0] =~= s);
        assert(split_unquoted(s, sep, false) == r0.update(0, seq![s[0]] + r0[0]));
        assert(split_unquoted(s, sep, false) =~= seq![s]);
    } else {
        assert(s[0] == k[0]);
        assert(s.drop_first() =~= k.drop_first() + seq!['=', '"'] + v + seq!['"']);
        lemma_split_attr_token(k.drop_first(), v, sep);
        let r = split_unquoted(s.drop_first(), sep, false);
        assert(seq![s[0]] + r[0] =~= s);
        assert(split_unquoted(s, sep, false) == r.update(0, seq![s[0]] + r[0]));
        assert(split_unquoted(s, sep, false) =~= seq![s]);
    }
}

/// The tokens of `s` split on `sep` outside double quotes.
pub fn split_unquoted_str(s: &str, sep: char, in_quotes: bool) -> (r: Vec<String>)
    ensures
        r.deep_view() == split_unquoted(s@, sep, in_quotes),
        r.len() >= 1,
    decreases s@.len(),
{
    let n = s.unicode_len();
    if n == 0 {
        let mut r: Vec<String> = Vec::new();
        r.push(String::new());
        proof {
            assert(r.deep_view() =~= split_unquoted(s@, sep, in_quotes));
        }
        r
    } else {
        let c = s.get_char(0);
        let tail = s.substring_char(1, n);
        proof {
            assert(tail@ =~= s@.drop_first());
        }
        if c == sep && !in_quotes {
            let mut r = split_unquoted_str(tail, sep, in_quotes);
            r.insert(0, String::new());
            proof {
                assert(r.deep_view() =~= split_unquoted(s@, sep, in_quotes));
            }
            r
        } else {
            let next = if c == '"' {
                !in_quotes
            } else {
                in_quotes
            };
            let mut r = split_unquoted_str(tail, sep, next);
            let head = s.substring_char(0, 1).to_owned();
            let first = head.concat(r[0].as_str());
            proof {
                assert(first@ =~= seq![s@[0]] + r.deep_view()[0]);
            }
            let _ = r.remove(0);
            r.insert(0, first);
            proof {
                let full = split_unquoted(s@, sep, in_quotes);
                assert(r.deep_view() =~= full);
            }
            r
        }
    }
}

} // verus!

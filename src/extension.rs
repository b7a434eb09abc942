//! Extension tokens: normalization of what the user typed.

use vstd::prelude::*;
use crate::error::FatalError;
use crate::text::{
    chars_of, has_prefix, lemma_split_commas_nonempty, lower_char, lower_seq, lowercase,
    pieces_view, remove_all, split_commas, split_on_commas, string_of, without,
};

verus! {

/// The normalized form of a raw extension: ASCII lower-cased and, where it
/// then starts with a dot, with every dot taken out.
pub open spec fn normalized(raw: Seq<char>) -> Seq<char> {
    let low = lower_seq(raw);
    if low.len() > 0 && low[0] == '.' {
        without(low, seq!['.'])
    } else {
        low
    }
}

/// The non-empty strings of a sequence, in order.
pub open spec fn non_empty(ts: Seq<Seq<char>>) -> Seq<Seq<char>>
    decreases ts.len(),
{
    if ts.len() == 0 {
        Seq::empty()
    } else {
        let earlier = non_empty(ts.drop_last());
        if ts.last().len() > 0 {
            earlier.push(ts.last())
        } else {
            earlier
        }
    }
}

/// The extension tokens named by a comma-separated list: each piece
/// normalized, in order, leaving out those that come out empty.
pub open spec fn tokens_of(list: Seq<char>) -> Seq<Seq<char>> {
    non_empty(split_commas(list).map_values(|p: Seq<char>| normalized(p)))
}

/// A valid extension token: not empty, and unchanged by normalization
/// (ASCII lower-case, with no leading dot).
pub open spec fn is_token(t: Seq<char>) -> bool {
    t.len() > 0 && normalized(t) == t
}

/// Every character of `s` is already lower-case.
pub open spec fn all_lower(s: Seq<char>) -> bool {
    forall|i: int| 0 <= i < s.len() ==> lower_char(#[trigger] s[i]) == s[i]
}

proof fn lemma_lower_seq_all_lower(s: Seq<char>)
    ensures
        all_lower(lower_seq(s)),
{
    assert forall|i: int| 0 <= i < lower_seq(s).len() implies lower_char(
        #[trigger] lower_seq(s)[i],
    ) == lower_seq(s)[i] by {
        let c = s[i];
        if 'A' <= c && c <= 'Z' {
            assert(((c as u32) + 32) as char as u32 == (c as u32) + 32);
        }
    }
}

proof fn lemma_lower_seq_fixed(s: Seq<char>)
    requires
        all_lower(s),
    ensures
        lower_seq(s) == s,
{
    assert(lower_seq(s) =~= s);
}

proof fn lemma_without_dot(s: Seq<char>)
    requires
        all_lower(s),
    ensures
        all_lower(without(s, seq!['.'])),
        !without(s, seq!['.']).contains('.'),
    decreases s.len(),
{
    let pat = seq!['.'];
    if s.len() > 0 {
        assert(all_lower(s.skip(1)));
        lemma_without_dot(s.skip(1));
        if !has_prefix(s, pat) {
            assert(s.subrange(0, 1) =~= seq![s[0]]);
            let w = without(s, pat);
            let t = without(s.skip(1), pat);
            assert(w == seq![s[0]] + t);
            assert forall|i: int| 0 <= i < w.len() implies lower_char(#[trigger] w[i]) == w[i] by {
                if i > 0 {
                    assert(w[i] == t[i - 1]);
                }
            }
            assert forall|i: int| 0 <= i < w.len() implies #[trigger] w[i] != '.' by {
                if i > 0 {
                    assert(w[i] == t[i - 1]);
                }
            }
        }
    }
}

/// Normalizing a token that is already normalized leaves it as it is.
pub proof fn lemma_normalized_idempotent(raw: Seq<char>)
    ensures
        normalized(normalized(raw)) == normalized(raw),
{
    let low = lower_seq(raw);
    lemma_lower_seq_all_lower(raw);
    let n = normalized(raw);
    if low.len() > 0 && low[0] == '.' {
        lemma_without_dot(low);
        lemma_lower_seq_fixed(n);
        if n.len() > 0 {
            assert(n.contains(n[0]));
        }
    } else {
        lemma_lower_seq_fixed(low);
    }
}

/// Strings joined with one comma between each two.
pub open spec fn joined_with_commas(ts: Seq<Seq<char>>) -> Seq<char>
    decreases ts.len(),
{
    if ts.len() == 0 {
        Seq::empty()
    } else if ts.len() == 1 {
        ts[0]
    } else {
        joined_with_commas(ts.drop_last()) + seq![','] + ts.last()
    }
}

proof fn lemma_split_extend(x: Seq<char>, t: Seq<char>)
    requires
        !t.contains(','),
    ensures
        split_commas(x + t) == split_commas(x).update(
            split_commas(x).len() - 1,
            split_commas(x).last() + t,
        ),
    decreases t.len(),
{
    lemma_split_commas_nonempty(x);
    let p = split_commas(x);
    if t.len() == 0 {
        assert(x + t =~= x);
        assert(p.last() + t =~= p.last());
        assert(p.update(p.len() - 1, p.last()) =~= p);
    } else {
        let u = t.drop_last();
        assert(!u.contains(',')) by {
            if u.contains(',') {
                let i = choose|i: int| 0 <= i < u.len() && u[i] == ',';
                assert(t[i] == ',');
            }
        }
        lemma_split_extend(x, u);
        assert((x + t).drop_last() =~= x + u);
        assert(t.last() != ',') by {
            assert(t[t.len() - 1] == t.last());
        }
        assert((x + t).last() == t.last());
        let q = split_commas(x + u);
        assert(q.len() == p.len());
        assert(q.last() == p.last() + u);
        assert(split_commas(x + t) == q.update(q.len() - 1, q.last().push(t.last())));
        assert((p.last() + u).push(t.last()) =~= p.last() + t);
        assert(split_commas(x + t) =~= p.update(p.len() - 1, p.last() + t));
    }
}

proof fn lemma_split_joined(ts: Seq<Seq<char>>)
    requires
        ts.len() >= 1,
        forall|i: int| 0 <= i < ts.len() ==> !(#[trigger] ts[i]).contains(','),
    ensures
        split_commas(joined_with_commas(ts)) == ts,
    decreases ts.len(),
{
    if ts.len() == 1 {
        lemma_split_extend(Seq::empty(), ts[0]);
        assert(Seq::<char>::empty() + ts[0] =~= ts[0]);
        assert(split_commas(Seq::<char>::empty()) == seq![Seq::<char>::empty()]);
        assert(Seq::<char>::empty() + ts[0] =~= ts[0]);
        assert(split_commas(ts[0]) =~= ts);
    } else {
        let init = ts.drop_last();
        assert forall|i: int| 0 <= i < init.len() implies !(#[trigger] init[i]).contains(',') by {
            assert(init[i] == ts[i]);
        }
        lemma_split_joined(init);
        let head = joined_with_commas(init) + seq![','];
        assert(ts[ts.len() - 1] == ts.last());
        lemma_split_extend(head, ts.last());
        assert(head.drop_last() =~= joined_with_commas(init));
        lemma_split_commas_nonempty(head);
        assert(split_commas(head) == init.push(Seq::<char>::empty()));
        assert(Seq::<char>::empty() + ts.last() =~= ts.last());
        assert(split_commas(head + ts.last()) =~= ts);
    }
}

proof fn lemma_non_empty_all(ts: Seq<Seq<char>>)
    requires
        forall|i: int| 0 <= i < ts.len() ==> (#[trigger] ts[i]).len() > 0,
    ensures
        non_empty(ts) == ts,
    decreases ts.len(),
{
    if ts.len() > 0 {
        let init = ts.drop_last();
        assert forall|i: int| 0 <= i < init.len() implies (#[trigger] init[i]).len() > 0 by {
            assert(init[i] == ts[i]);
        }
        lemma_non_empty_all(init);
        assert(ts[ts.len() - 1] == ts.last());
        assert(init.push(ts.last()) =~= ts);
    }
}

/// Reading back a comma-separated list of valid tokens gives the same tokens,
/// in order: normalizing what is already normalized changes nothing.
pub proof fn lemma_tokens_of_joined_tokens(ts: Seq<Seq<char>>)
    requires
        forall|i: int| 0 <= i < ts.len() ==> is_token(#[trigger] ts[i]) && !ts[i].contains(','),
    ensures
        tokens_of(joined_with_commas(ts)) == ts,
{
    if ts.len() == 0 {
        let e = Seq::<char>::empty();
        assert(joined_with_commas(ts) == e);
        assert(split_commas(e) == seq![e]);
        assert(lower_seq(e) =~= e);
        assert(normalized(e) == e);
        let normed = seq![e].map_values(|p: Seq<char>| normalized(p));
        assert(normed =~= seq![e]);
        assert(seq![e].drop_last() =~= Seq::<Seq<char>>::empty());
        assert(non_empty(seq![e]) == non_empty(Seq::<Seq<char>>::empty()));
        assert(tokens_of(joined_with_commas(ts)) =~= ts);
    } else {
        lemma_split_joined(ts);
        let normed = ts.map_values(|p: Seq<char>| normalized(p));
        assert(normed =~= ts);
        lemma_non_empty_all(ts);
    }
}

/// The normalized token of one raw extension (`".JPG"` gives `"jpg"`).
pub fn normalize_extension(raw: &str) -> (r: String)
    ensures
        r@ == normalized(raw@),
{
    let cs = chars_of(raw);
    let low = lowercase(cs.as_slice());
    if low.len() > 0 && low[0] == '.' {
        let dot = vec!['.'];
        proof {
            assert(dot@ =~= seq!['.']);
        }
        let stripped = remove_all(low.as_slice(), dot.as_slice());
        string_of(stripped.as_slice())
    } else {
        string_of(low.as_slice())
    }
}

/// The requested extension tokens, read from the command line's arguments:
/// the last argument is a comma-separated list, and the first is the
/// program's name, so fewer than two arguments means none was given. Pieces
/// that normalize to nothing name no extension and are left out.
pub fn requested_extensions(args: &Vec<String>) -> (r: Result<Vec<String>, FatalError>)
    ensures
        r is Ok <==> args@.len() >= 2,
        r is Err ==> r == Err::<Vec<String>, FatalError>(FatalError::MissingArgument),
        r is Ok ==> r->Ok_0@.map_values(|t: String| t@) == tokens_of(args@.last()@),
        r is Ok ==> forall|i: int| 0 <= i < r->Ok_0@.len() ==> is_token(#[trigger] r->Ok_0@[i]@),
{
    if args.len() <= 1 {
        return Err(FatalError::MissingArgument);
    }
    let list = chars_of(args[args.len() - 1].as_str());
    let pieces = split_on_commas(list.as_slice());
    let ghost normed = split_commas(list@).map_values(|p: Seq<char>| normalized(p));
    let mut tokens: Vec<String> = Vec::new();
    let mut i: usize = 0;
    while i < pieces.len()
        invariant
            i <= pieces@.len(),
            pieces_view(pieces@) == split_commas(list@),
            normed == split_commas(list@).map_values(|p: Seq<char>| normalized(p)),
            tokens@.map_values(|t: String| t@) == non_empty(normed.subrange(0, i as int)),
            forall|j: int| 0 <= j < tokens@.len() ==> is_token(#[trigger] tokens@[j]@),
        decreases pieces@.len() - i,
    {
        let piece = string_of(pieces[i].as_slice());
        let token = normalize_extension(piece.as_str());
        let ghost next = normed.subrange(0, i + 1);
        assert(next.drop_last() =~= normed.subrange(0, i as int));
        assert(next.last() == token@);
        let ghost before = tokens@;
        if token.as_str().unicode_len() > 0 {
            proof {
                lemma_normalized_idempotent(piece@);
            }
            tokens.push(token);
            assert(tokens@.map_values(|t: String| t@) =~= before.map_values(|t: String| t@).push(
                next.last(),
            ));
            assert forall|j: int| 0 <= j < tokens@.len() implies is_token(#[trigger] tokens@[j]@) by {
                if j < before.len() {
                    assert(tokens@[j] == before[j]);
                }
            }
        }
        i = i + 1;
    }
    assert(normed.subrange(0, pieces@.len() as int) =~= normed);
    Ok(tokens)
}

} // verus!

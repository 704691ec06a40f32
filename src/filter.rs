//! Path filters for the store's queries.
use vstd::prelude::*;

verus! {

/// `s` with every single quote doubled.
pub open spec fn escape_quotes(s: Seq<char>) -> Seq<char>
    decreases s.len(),
{
    if s.len() == 0 {
        s
    } else if s.last() == '\'' {
        escape_quotes(s.drop_last()) + seq!['\'', '\'']
    } else {
        escape_quotes(s.drop_last()).push(s.last())
    }
}

/// A path as a quoted SQL string literal.
pub open spec fn quoted(s: Seq<char>) -> Seq<char> {
    seq!['\''] + escape_quotes(s) + seq!['\'']
}

/// The quoted paths separated by commas.
pub open spec fn quoted_list(ps: Seq<Seq<char>>) -> Seq<char>
    decreases ps.len(),
{
    if ps.len() == 0 {
        Seq::empty()
    } else if ps.len() == 1 {
        quoted(ps[0])
    } else {
        quoted_list(ps.drop_last()) + seq![','] + quoted(ps.last())
    }
}

/// `path IN (<quoted paths>)`.
pub open spec fn in_filter(ps: Seq<Seq<char>>) -> Seq<char> {
    seq!['p', 'a', 't', 'h', ' ', 'I', 'N', ' ', '('] + quoted_list(ps) + seq![')']
}

fn push_quoted(out: &mut String, p: &str)
    ensures
        final(out)@ == old(out)@ + quoted(p@),
{
    let ghost start = out@;
    out.append("'");
    proof {
        reveal_strlit("'");
    }
    let n = p.unicode_len();
    let mut i: usize = 0;
    while i < n
        invariant
            n == p@.len(),
            i <= n,
            out@ == start + seq!['\''] + escape_quotes(p@.subrange(0, i as int)),
        decreases n - i,
    {
        proof {
            assert(p@.subrange(0, i as int + 1).drop_last() =~= p@.subrange(0, i as int));
            assert(p@.subrange(0, i as int + 1).last() == p@[i as int]);
        }
        let c = p.get_char(i);
        if c == '\'' {
            out.append("''");
            proof {
                reveal_strlit("''");
                assert(out@ =~= start + seq!['\''] + escape_quotes(p@.subrange(0, i as int + 1)));
            }
        } else {
            out.append(p.substring_char(i, i + 1));
            proof {
                assert(p@.subrange(i as int, i as int + 1) =~= seq![c]);
                assert(out@ =~= start + seq!['\''] + escape_quotes(p@.subrange(0, i as int + 1)));
            }
        }
        i = i + 1;
    }
    out.append("'");
    proof {
        reveal_strlit("'");
        assert(p@.subrange(0, i as int) =~= p@);
        assert(out@ =~= start + quoted(p@));
    }
}

/// The filter `path IN ('a','b',...)` over the given paths, each quoted as an
/// SQL literal with its single quotes doubled.
pub fn build_in_filter(paths: &Vec<String>) -> (r: String)
    ensures
        r@ == in_filter(paths@.map_values(|p: String| p@)),
{
    let ghost ps = paths@.map_values(|p: String| p@);
    let mut out = String::from_str("path IN (");
    proof {
        reveal_strlit("path IN (");
    }
    let ghost head = out@;
    let mut i: usize = 0;
    while i < paths.len()
        invariant
            i <= paths@.len(),
            ps == paths@.map_values(|p: String| p@),
            head == seq!['p', 'a', 't', 'h', ' ', 'I', 'N', ' ', '('],
            out@ == head + quoted_list(ps.subrange(0, i as int)),
        decreases paths@.len() - i,
    {
        proof {
            assert(ps.subrange(0, i as int + 1).drop_last() =~= ps.subrange(0, i as int));
            assert(ps.subrange(0, i as int + 1).last() == paths@[i as int]@);
        }
        if i > 0 {
            out.append(",");
            proof {
                reveal_strlit(",");
            }
        }
        push_quoted(&mut out, paths[i].as_str());
        proof {
            if i == 0 {
                assert(ps.subrange(0, 1)[0] == paths@[0]@);
                assert(quoted_list(ps.subrange(0, 0)) =~= Seq::<char>::empty());
                assert(out@ =~= head + quoted_list(ps.subrange(0, i as int + 1)));
            } else {
                assert(out@ =~= head + quoted_list(ps.subrange(0, i as int + 1)));
            }
        }
        i = i + 1;
    }
    out.append(")");
    proof {
        reveal_strlit(")");
        assert(ps.subrange(0, i as int) =~= ps);
        assert(out@ =~= in_filter(ps));
    }
    out
}

} // verus!

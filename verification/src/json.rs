//! The minimal JSON array form of a sequence of integers: rendering,
//! parsing, and the round trip between the two.
use vstd::prelude::*;
use vstd::string::StrSliceExecFns;
use vstd::string::StringExecFns;
use crate::numeral::int_to_dec;
use crate::numeral::int_to_string;
use crate::numeral::is_digit;
use crate::numeral::lemma_int_to_dec;
use crate::numeral::literal_val;
use crate::numeral::parse_int;
use crate::numeral::valid_int_literal;
use crate::sorting::int_view;

verus! {

/// The canonical renderings of the values, joined by single commas.
pub open spec fn join_vals(xs: Seq<int>) -> Seq<char>
    decreases xs.len(),
{
    if xs.len() == 0 {
        Seq::empty()
    } else if xs.len() == 1 {
        int_to_dec(xs[0])
    } else {
        join_vals(xs.drop_last()) + seq![','] + int_to_dec(xs.last())
    }
}

/// The JSON array literal for a sequence of integers: the joined values
/// wrapped exactly once in brackets, with no whitespace.
pub open spec fn json_array(xs: Seq<int>) -> Seq<char> {
    seq!['['] + join_vals(xs) + seq![']']
}

/// Every value of a sequence fits the machine integer range.
pub open spec fn in_i32_range(xs: Seq<int>) -> bool {
    forall|i: int| 0 <= i < xs.len() ==> i32::MIN <= #[trigger] xs[i] <= i32::MAX
}

/// Render the values as a JSON array literal.
pub fn render_json(v: &Vec<i32>) -> (s: String)
    ensures
        s@ == json_array(int_view(v@)),
{
    let mut s = String::from_str("[");
    proof {
        reveal_strlit("[");
        assert(int_view(v@).take(0) =~= Seq::<int>::empty());
        assert(s@ =~= seq!['['] + join_vals(int_view(v@).take(0)));
    }
    let mut i: usize = 0;
    while i < v.len()
        invariant
            i <= v@.len(),
            s@ == seq!['['] + join_vals(int_view(v@).take(i as int)),
        decreases v@.len() - i,
    {
        if i > 0 {
            s.append(",");
        }
        let t = int_to_string(v[i]);
        s.append(t.as_str());
        proof {
            reveal_strlit(",");
            let vals = int_view(v@);
            assert(vals.take(i + 1).drop_last() =~= vals.take(i as int));
            assert(vals.take(i + 1).last() == vals[i as int]);
            assert(vals[i as int] == v@[i as int] as int);
            if i == 0 {
                assert(s@ =~= seq!['['] + join_vals(vals.take(i + 1)));
            } else {
                assert(join_vals(vals.take(i + 1)) == join_vals(vals.take(i as int)) + seq![',']
                    + int_to_dec(vals[i as int]));
                assert(s@ =~= seq!['['] + join_vals(vals.take(i + 1)));
            }
        }
        i = i + 1;
    }
    s.append("]");
    proof {
        reveal_strlit("]");
        assert(int_view(v@).take(v@.len() as int) =~= int_view(v@));
        assert(s@ =~= json_array(int_view(v@)));
    }
    s
}

/// No comma occurs anywhere in a sequence of characters.
pub open spec fn comma_free(s: Seq<char>) -> bool {
    forall|i: int| 0 <= i < s.len() ==> #[trigger] s[i] != ','
}

/// A canonical integer rendering contains no comma and no bracket.
pub proof fn lemma_int_to_dec_comma_free(n: int)
    ensures
        comma_free(int_to_dec(n)),
        forall|i: int| 0 <= i < int_to_dec(n).len() ==> #[trigger] int_to_dec(n)[i] != '[',
        forall|i: int| 0 <= i < int_to_dec(n).len() ==> #[trigger] int_to_dec(n)[i] != ']',
{
    lemma_int_to_dec(n);
    assert forall|i: int| 0 <= i < int_to_dec(n).len() implies #[trigger] int_to_dec(n)[i] != ','
        && int_to_dec(n)[i] != '[' && int_to_dec(n)[i] != ']' by {
        let c = int_to_dec(n)[i];
        assert(c == '-' || is_digit(c));
        assert(',' as int == 44 && '[' as int == 91 && ']' as int == 93 && '-' as int == 45);
    }
}

/// The join of a non-empty sequence of values is never empty.
pub proof fn lemma_join_vals_nonempty(xs: Seq<int>)
    requires
        xs.len() >= 1,
    ensures
        join_vals(xs).len() >= 1,
    decreases xs.len(),
{
    if xs.len() == 1 {
        lemma_int_to_dec(xs[0]);
    } else {
        lemma_join_vals_nonempty(xs.drop_last());
    }
}

/// Unfolding the join at the front: the first value's rendering, a comma,
/// then the join of the remaining values.
pub proof fn lemma_join_vals_first(xs: Seq<int>)
    requires
        xs.len() >= 2,
    ensures
        join_vals(xs) == int_to_dec(xs[0]) + seq![','] + join_vals(xs.drop_first()),
    decreases xs.len(),
{
    if xs.len() == 2 {
        let dl = xs.drop_last();
        let df = xs.drop_first();
        assert(dl =~= seq![xs[0]]);
        assert(df =~= seq![xs[1]]);
        assert(join_vals(dl) == int_to_dec(xs[0]));
        assert(join_vals(df) == int_to_dec(xs[1]));
        assert(join_vals(xs) =~= int_to_dec(xs[0]) + seq![','] + join_vals(df));
    } else {
        let dl = xs.drop_last();
        lemma_join_vals_first(dl);
        let df = xs.drop_first();
        assert(dl.drop_first() =~= df.drop_last());
        assert(dl[0] == xs[0]);
        assert(df.last() == xs.last());
        assert(df.len() >= 2);
        assert(join_vals(xs) == join_vals(dl) + seq![','] + int_to_dec(xs.last()));
        assert(join_vals(df) == join_vals(df.drop_last()) + seq![','] + int_to_dec(df.last()));
        assert(join_vals(xs) =~= int_to_dec(xs[0]) + seq![','] + join_vals(df));
    }
}

/// The joined values contain no bracket, and never end in a separator.
pub proof fn lemma_join_vals_inner(xs: Seq<int>)
    ensures
        forall|i: int|
            0 <= i < join_vals(xs).len() ==> #[trigger] join_vals(xs)[i] != '[' && join_vals(
                xs,
            )[i] != ']',
        xs.len() >= 1 ==> join_vals(xs).last() != ',',
    decreases xs.len(),
{
    if xs.len() == 0 {
    } else if xs.len() == 1 {
        lemma_int_to_dec(xs[0]);
        lemma_int_to_dec_comma_free(xs[0]);
    } else {
        lemma_join_vals_inner(xs.drop_last());
        lemma_int_to_dec(xs.last());
        lemma_int_to_dec_comma_free(xs.last());
        let j1 = join_vals(xs.drop_last());
        let d = int_to_dec(xs.last());
        lemma_join_vals_nonempty(xs.drop_last());
        assert(join_vals(xs) == j1 + seq![','] + d);
        assert forall|i: int| 0 <= i < join_vals(xs).len() implies #[trigger] join_vals(xs)[i]
            != '[' && join_vals(xs)[i] != ']' by {
            if i < j1.len() {
                assert(join_vals(xs)[i] == j1[i]);
            } else if i == j1.len() {
                assert(join_vals(xs)[i] == ',');
            } else {
                assert(join_vals(xs)[i] == d[i - j1.len() - 1]);
            }
        }
        assert(join_vals(xs).last() == d.last());
    }
}

/// The rendered text is wrapped exactly once in brackets: it opens with the
/// only opening bracket, closes with the only closing bracket, and carries
/// no trailing separator before the close.
pub proof fn lemma_json_array_wrapping(xs: Seq<int>)
    ensures
        json_array(xs).len() >= 2,
        json_array(xs)[0] == '[',
        json_array(xs).last() == ']',
        forall|i: int|
            0 < i < json_array(xs).len() - 1 ==> #[trigger] json_array(xs)[i] != '['
                && json_array(xs)[i] != ']',
        xs.len() >= 1 ==> json_array(xs)[json_array(xs).len() - 2] != ',',
{
    lemma_join_vals_inner(xs);
    let s = json_array(xs);
    let j = join_vals(xs);
    assert(s.len() == j.len() + 2);
    assert(forall|i: int| 0 < i < s.len() - 1 ==> #[trigger] s[i] == j[i - 1]);
    if xs.len() >= 1 {
        lemma_join_vals_nonempty(xs);
        assert(s[s.len() - 2] == j.last());
    }
}

/// If two comma-free prefixes are each followed by nothing or by a comma,
/// the split of the whole text into prefix and remainder is unique.
pub proof fn lemma_token_split(a: Seq<char>, r: Seq<char>, b: Seq<char>, t: Seq<char>)
    requires
        a + r == b + t,
        comma_free(a),
        comma_free(b),
        r.len() == 0 || r[0] == ',',
        t.len() == 0 || t[0] == ',',
    ensures
        a == b,
        r == t,
{
    assert((a + r).len() == (b + t).len());
    if a.len() < b.len() {
        assert(r.len() > 0);
        assert((a + r)[a.len() as int] == r[0]);
        assert((b + t)[a.len() as int] == b[a.len() as int]);
        assert(false);
    }
    if b.len() < a.len() {
        assert(t.len() > 0);
        assert((b + t)[b.len() as int] == t[0]);
        assert((a + r)[b.len() as int] == a[b.len() as int]);
        assert(false);
    }
    assert(a =~= b) by {
        assert(forall|i: int|
            0 <= i < a.len() ==> (a + r)[i] == #[trigger] a[i] && (b + t)[i] == b[i]);
    }
    assert(a.len() == b.len());
    assert((a + r).len() == a.len() + r.len());
    assert((b + t).len() == b.len() + t.len());
    assert(r.len() == t.len());
    assert forall|i: int| 0 <= i < r.len() implies r[i] == t[i] by {
        assert((a + r)[a.len() + i] == r[i]);
        assert((b + t)[b.len() + i] == t[i]);
    }
    assert(r =~= t);
}

/// Joining is injective: distinct value sequences render to distinct text.
pub proof fn lemma_join_vals_injective(xs: Seq<int>, ys: Seq<int>)
    requires
        join_vals(xs) == join_vals(ys),
    ensures
        xs == ys,
    decreases xs.len(),
{
    if xs.len() == 0 {
        if ys.len() > 0 {
            lemma_join_vals_nonempty(ys);
            assert(false);
        }
        assert(xs =~= ys);
    } else if ys.len() == 0 {
        lemma_join_vals_nonempty(xs);
        assert(false);
    } else {
        let a = int_to_dec(xs[0]);
        let b = int_to_dec(ys[0]);
        let r = if xs.len() == 1 {
            Seq::<char>::empty()
        } else {
            seq![','] + join_vals(xs.drop_first())
        };
        let t = if ys.len() == 1 {
            Seq::<char>::empty()
        } else {
            seq![','] + join_vals(ys.drop_first())
        };
        if xs.len() == 1 {
            assert(join_vals(xs) =~= a + r);
        } else {
            lemma_join_vals_first(xs);
            assert(join_vals(xs) =~= a + r);
        }
        if ys.len() == 1 {
            assert(join_vals(ys) =~= b + t);
        } else {
            lemma_join_vals_first(ys);
            assert(join_vals(ys) =~= b + t);
        }
        lemma_int_to_dec_comma_free(xs[0]);
        lemma_int_to_dec_comma_free(ys[0]);
        lemma_token_split(a, r, b, t);
        lemma_int_to_dec(xs[0]);
        lemma_int_to_dec(ys[0]);
        assert(xs[0] == ys[0]);
        if xs.len() == 1 {
            if ys.len() > 1 {
                assert(t[0] == ',');
                assert(false);
            }
            assert(xs =~= ys);
        } else {
            if ys.len() == 1 {
                assert(r[0] == ',');
                assert(false);
            }
            assert(r.skip(1) =~= join_vals(xs.drop_first()));
            assert(t.skip(1) =~= join_vals(ys.drop_first()));
            assert(r.skip(1) == t.skip(1));
            lemma_join_vals_injective(xs.drop_first(), ys.drop_first());
            assert(forall|i: int| 1 <= i < xs.len() ==> #[trigger] xs[i] == xs.drop_first()[i - 1]);
            assert(forall|i: int| 1 <= i < ys.len() ==> #[trigger] ys[i] == ys.drop_first()[i - 1]);
            assert(xs =~= ys);
        }
    }
}

/// Rendering as a JSON array is injective.
pub proof fn lemma_json_array_injective(xs: Seq<int>, ys: Seq<int>)
    requires
        json_array(xs) == json_array(ys),
    ensures
        xs == ys,
{
    let s = json_array(xs);
    assert(s.len() == 2 + join_vals(xs).len());
    assert(s.len() == 2 + join_vals(ys).len());
    assert(join_vals(xs) =~= s.subrange(1, s.len() - 1)) by {
        assert(forall|i: int|
            0 <= i < join_vals(xs).len() ==> (seq!['['] + join_vals(xs) + seq![']'])[i + 1]
                == #[trigger] join_vals(xs)[i]);
    }
    assert(join_vals(ys) =~= s.subrange(1, s.len() - 1)) by {
        assert(forall|i: int|
            0 <= i < join_vals(ys).len() ==> (seq!['['] + join_vals(ys) + seq![']'])[i + 1]
                == #[trigger] join_vals(ys)[i]);
    }
    lemma_join_vals_injective(xs, ys);
}

/// What a JSON array text denotes: the unique sequence of integers that
/// renders to it, if there is one.
pub open spec fn spec_parse_array(s: Seq<char>) -> Option<Seq<int>> {
    if exists|xs: Seq<int>| s == json_array(xs) {
        Some(choose|xs: Seq<int>| s == json_array(xs))
    } else {
        None
    }
}

/// Round trip: the JSON text rendered from a sequence parses back to exactly
/// that sequence, so re-rendering what was parsed yields the identical text.
pub proof fn lemma_render_parse_round_trip(xs: Seq<int>)
    ensures
        spec_parse_array(json_array(xs)) == Some(xs),
{
    let s = json_array(xs);
    assert(s == json_array(xs));
    let ys = choose|ys: Seq<int>| s == json_array(ys);
    lemma_json_array_injective(xs, ys);
}

/// Locating one value's rendering inside joined text: scanning from `p` up
/// to the first comma (or the end) recovers exactly the first value.
proof fn lemma_token_at(m: Seq<char>, p: int, q: int, rest: Seq<int>)
    requires
        0 <= p <= q <= m.len(),
        rest.len() >= 1,
        m.subrange(p, m.len() as int) == join_vals(rest),
        forall|t: int| p <= t < q ==> m[t] != ',',
        q == m.len() || m[q] == ',',
    ensures
        q == p + int_to_dec(rest[0]).len(),
        m.subrange(p, q) == int_to_dec(rest[0]),
        rest.len() == 1 ==> q == m.len(),
        rest.len() >= 2 ==> q < m.len() && m.subrange(q + 1, m.len() as int) == join_vals(
            rest.skip(1),
        ),
{
    let suffix = m.subrange(p, m.len() as int);
    let a = int_to_dec(rest[0]);
    lemma_int_to_dec(rest[0]);
    lemma_int_to_dec_comma_free(rest[0]);
    assert(forall|i: int| 0 <= i < suffix.len() ==> #[trigger] suffix[i] == m[p + i]);
    if rest.len() == 1 {
        assert(suffix == a);
        if q < m.len() {
            assert(m[q] == suffix[q - p]);
            assert(false);
        }
        assert(m.subrange(p, q) =~= a);
    } else {
        lemma_join_vals_first(rest);
        assert(rest.drop_first() =~= rest.skip(1));
        let j2 = join_vals(rest.skip(1));
        lemma_join_vals_nonempty(rest.skip(1));
        assert(suffix =~= a + seq![','] + j2);
        assert(forall|i: int| 0 <= i < a.len() ==> (a + seq![','] + j2)[i] == #[trigger] a[i]);
        assert(suffix[a.len() as int] == ',');
        assert(p + a.len() < m.len());
        if q < p + a.len() {
            assert(m[q] == suffix[q - p]);
            assert(suffix[q - p] == a[q - p]);
            assert(false);
        }
        if q > p + a.len() {
            assert(m[p + a.len()] == suffix[a.len() as int]);
            assert(false);
        }
        assert(q == p + a.len());
        assert(m.subrange(p, q) =~= a);
        assert(m.subrange(q + 1, m.len() as int) =~= j2) by {
            assert(forall|i: int|
                0 <= i < j2.len() ==> (a + seq![','] + j2)[i + a.len() + 1] == #[trigger] j2[i]);
        }
    }
}

/// Parse comma-joined canonical integer renderings.
///
/// Returns the values exactly when the text is the join of some sequence of
/// in-range integers; otherwise reports that no such sequence exists.
#[verifier::loop_isolation(false)]
fn parse_join(m: &str) -> (r: Option<Vec<i32>>)
    ensures
        r matches Some(v) ==> m@ == join_vals(int_view(v@)),
        r is None ==> forall|ys: Seq<int>| in_i32_range(ys) ==> m@ != join_vals(ys),
{
    let mlen = m.unicode_len();
    if mlen == 0 {
        let v: Vec<i32> = Vec::new();
        proof {
            assert(int_view(v@) =~= Seq::<int>::empty());
            assert(m@ =~= join_vals(int_view(v@)));
        }
        return Some(v);
    }
    let mut vals: Vec<i32> = Vec::new();
    let mut p: usize = 0;
    proof {
        assert(int_view(vals@) =~= Seq::<int>::empty());
        assert forall|ys: Seq<int>| in_i32_range(ys) && m@ == join_vals(ys) implies ys.len()
            > vals@.len() && ys.take(vals@.len() as int) == int_view(vals@) && m@.subrange(
            p as int,
            mlen as int,
        ) == join_vals(ys.skip(vals@.len() as int)) by {
            if ys.len() == 0 {
                assert(join_vals(ys).len() == 0);
            }
            assert(ys.take(0) =~= int_view(vals@));
            assert(ys.skip(0) =~= ys);
            assert(m@.subrange(0, mlen as int) =~= m@);
        }
    }
    loop
        invariant
            mlen == m@.len(),
            0 < mlen,
            p < mlen,
            vals@.len() == 0 ==> p == 0,
            vals@.len() > 0 ==> 1 <= p && m@.subrange(0, p as int) == join_vals(int_view(vals@))
                + seq![','],
            forall|ys: Seq<int>|
                in_i32_range(ys) && m@ == join_vals(ys) ==> ys.len() > vals@.len() && ys.take(
                    vals@.len() as int,
                ) == int_view(vals@) && m@.subrange(p as int, mlen as int) == join_vals(
                    ys.skip(vals@.len() as int),
                ),
        decreases mlen - p,
    {
        let mut q: usize = p;
        while q < mlen && m.get_char(q) != ','
            invariant
                p <= q <= mlen,
                forall|t: int| p <= t < q ==> m@[t] != ',',
            decreases mlen - q,
        {
            q = q + 1;
        }
        let token = m.substring_char(p, q);
        let ghost k: int = vals@.len() as int;
        proof {
            assert(token@ == m@.subrange(p as int, q as int));
            assert forall|ys: Seq<int>| in_i32_range(ys) && m@ == join_vals(ys) implies token@
                == int_to_dec(ys[k]) && (ys.len() == k + 1 ==> q == mlen) && (ys.len() >= k + 2
                ==> q < mlen && m@.subrange(q + 1, mlen as int) == join_vals(ys.skip(k + 1))) by {
                let rest = ys.skip(k);
                assert(rest.len() >= 1);
                assert(rest[0] == ys[k]);
                lemma_token_at(m@, p as int, q as int, rest);
                assert(rest.skip(1) =~= ys.skip(k + 1));
            }
        }
        let parsed = parse_int(token);
        match parsed {
            None => {
                proof {
                    assert forall|ys: Seq<int>| in_i32_range(ys) implies m@ != join_vals(ys) by {
                        if m@ == join_vals(ys) {
                            lemma_int_to_dec(ys[k]);
                            assert(valid_int_literal(token@));
                            assert(literal_val(token@) == ys[k]);
                            assert(i32::MIN <= ys[k] <= i32::MAX);
                            assert(false);
                        }
                    }
                }
                return None;
            },
            Some(val) => {
                let rend = int_to_string(val);
                let tok_owned = token.to_owned();
                if !(rend == tok_owned) {
                    proof {
                        assert forall|ys: Seq<int>| in_i32_range(ys) implies m@ != join_vals(
                            ys,
                        ) by {
                            if m@ == join_vals(ys) {
                                lemma_int_to_dec(ys[k]);
                                assert(literal_val(token@) == ys[k]);
                                assert(val as int == ys[k]);
                                assert(rend@ == token@);
                                assert(false);
                            }
                        }
                    }
                    return None;
                }
                let ghost vals_pre = vals@;
                vals.push(val);
                proof {
                    assert(token@ == int_to_dec(val as int));
                    assert(int_view(vals@) =~= int_view(vals_pre).push(val as int));
                }
                if q == mlen {
                    proof {
                        if vals_pre.len() == 0 {
                            assert(p == 0);
                            assert(m@ =~= token@);
                            assert(int_view(vals@) =~= seq![val as int]);
                            assert(m@ == join_vals(int_view(vals@)));
                        } else {
                            assert(int_view(vals@).drop_last() =~= int_view(vals_pre));
                            assert(int_view(vals@).last() == val as int);
                            assert(join_vals(int_view(vals@)) == join_vals(int_view(vals_pre))
                                + seq![','] + int_to_dec(val as int));
                            assert(m@ =~= m@.subrange(0, p as int) + token@);
                            assert(m@ == join_vals(int_view(vals@)));
                        }
                    }
                    return Some(vals);
                }
                if q + 1 == mlen {
                    proof {
                        assert forall|ys: Seq<int>| in_i32_range(ys) implies m@ != join_vals(
                            ys,
                        ) by {
                            if m@ == join_vals(ys) {
                                assert(ys.len() >= k + 2);
                                assert(m@.subrange(q + 1, mlen as int) =~= Seq::<char>::empty());
                                lemma_join_vals_nonempty(ys.skip(k + 1));
                                assert(false);
                            }
                        }
                    }
                    return None;
                }
                proof {
                    assert(q < mlen && m@[q as int] == ',');
                    assert(m@.subrange(0, q + 1) =~= join_vals(int_view(vals@)) + seq![',']) by {
                        if vals_pre.len() == 0 {
                            assert(m@.subrange(0, q + 1) =~= token@ + seq![',']);
                            assert(int_view(vals@) =~= seq![val as int]);
                        } else {
                            assert(int_view(vals@).drop_last() =~= int_view(vals_pre));
                            assert(int_view(vals@).last() == val as int);
                            assert(join_vals(int_view(vals@)) == join_vals(int_view(vals_pre))
                                + seq![','] + int_to_dec(val as int));
                            assert(m@.subrange(0, q + 1) =~= m@.subrange(0, p as int) + token@
                                + seq![',']);
                        }
                    }
                    assert forall|ys: Seq<int>| in_i32_range(ys) && m@ == join_vals(ys) implies
                        ys.len() > vals@.len() && ys.take(vals@.len() as int) == int_view(vals@)
                        && m@.subrange(q + 1, mlen as int) == join_vals(
                        ys.skip(vals@.len() as int),
                    ) by {
                        assert(ys.len() >= k + 2);
                        assert(ys[k] == val as int) by {
                            lemma_int_to_dec(ys[k]);
                            assert(literal_val(token@) == ys[k]);
                        }
                        assert(ys.take(k + 1) =~= int_view(vals@)) by {
                            assert(ys.take(k) == int_view(vals_pre));
                            assert(forall|i: int|
                                0 <= i < k ==> #[trigger] ys.take(k + 1)[i] == ys.take(k)[i]);
                        }
                    }
                }
                p = q + 1;
            },
        }
    }
}

/// Parse a JSON array literal of integers.
///
/// Returns the integer sequence exactly when the text is the JSON array
/// rendering of some sequence of in-range integers; the values returned are
/// the ones the text denotes.
pub fn parse_json_array(s: &str) -> (r: Option<Vec<i32>>)
    ensures
        r matches Some(v) ==> s@ == json_array(int_view(v@)) && spec_parse_array(s@) == Some(
            int_view(v@),
        ),
        r is None ==> forall|ys: Seq<int>| in_i32_range(ys) ==> s@ != json_array(ys),
{
    let len = s.unicode_len();
    proof {
        assert forall|ys: Seq<int>| json_array(ys).len() >= 2 && json_array(ys)[0] == '['
            && json_array(ys).last() == ']' by {
            assert(json_array(ys)[0] == '[');
            assert(json_array(ys).last() == ']');
        }
    }
    if len < 2 {
        return None;
    }
    if s.get_char(0) != '[' {
        return None;
    }
    if s.get_char(len - 1) != ']' {
        return None;
    }
    let mid = s.substring_char(1, len - 1);
    match parse_join(mid) {
        Some(v) => {
            proof {
                assert(s@ =~= seq!['['] + mid@ + seq![']']);
                assert(s@ == json_array(int_view(v@)));
                lemma_render_parse_round_trip(int_view(v@));
            }
            Some(v)
        },
        None => {
            proof {
                assert forall|ys: Seq<int>| in_i32_range(ys) implies s@ != json_array(ys) by {
                    if s@ == json_array(ys) {
                        assert(mid@ =~= join_vals(ys)) by {
                            assert(forall|i: int|
                                0 <= i < join_vals(ys).len() ==> (seq!['['] + join_vals(ys)
                                    + seq![']'])[i + 1] == #[trigger] join_vals(ys)[i]);
                        }
                        assert(false);
                    }
                }
            }
            None
        },
    }
}

} // verus!
